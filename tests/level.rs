use pixel_world::level::{extract_sprite, SpriteSheet, TerrainChunk};
use pixel_world::sprite::{Sprite, SUBPIXEL};

#[test]
fn extract_sprite_reads_alpha() {
    // a sheet of two by one sprites
    let width = 32u32;
    let height = 16u32;
    let mut rgba = vec![0u8; (4 * width * height) as usize];
    // sprite (1, 0): pixel (3, 2) of it is opaque
    let x = 16 + 3;
    let y = 2;
    rgba[(4 * (x + y * width) + 3) as usize] = 255;
    rgba[(4 * (x + y * width)) as usize] = 9;
    let sheet = SpriteSheet { width, height, rgba };
    let c = extract_sprite(&sheet, 1, 0);
    assert_eq!(c.len(), 256);
    assert!(c[3 + 2 * 16]);
    assert_eq!(c.iter().filter(|b| **b).count(), 1);
    let c0 = extract_sprite(&sheet, 0, 0);
    assert!(c0.iter().all(|b| !*b));
}

#[test]
fn maybe_flip_mirrors_columns() {
    let mut c = vec![false; 256];
    c[1 + 16 * 3] = true;
    let s = Sprite::from_collider(c, 0, 0, 1, 1);
    let f = s.maybe_flip(true);
    assert!(f.collider[14 + 16 * 3]);
    assert_eq!(f.collider.iter().filter(|b| **b).count(), 1);
    let g = f.maybe_flip(false);
    assert!(g.collider[14 + 16 * 3]);
}

#[test]
fn quarter_halves_scale_and_offsets() {
    let mut c = vec![false; 256];
    c[7 + 16 * 7] = true;
    let s = Sprite::from_collider(c, 100 * SUBPIXEL, 50 * SUBPIXEL, 4, 6);
    let q = s.quarter();
    assert_eq!(q.len(), 4);
    for part in &q {
        assert_eq!((part.x_scale, part.y_scale), (2, 3));
    }
    assert_eq!((q[0].x, q[0].y), (100 * SUBPIXEL, 50 * SUBPIXEL));
    assert_eq!((q[1].x, q[1].y), ((100 + 28) * SUBPIXEL, 50 * SUBPIXEL));
    assert_eq!((q[3].x, q[3].y), ((100 + 28) * SUBPIXEL, (50 + 42) * SUBPIXEL));
    // cell (7, 7) of the whole sprite is cells (14..16, 14..16) of the first quarter
    assert!(q[0].collider[14 + 16 * 14] && q[0].collider[15 + 16 * 15]);
    assert_eq!(q[0].collider.iter().filter(|b| **b).count(), 4);
    // and cells (0..2, 0..2) of the last
    assert!(q[3].collider[0] && q[3].collider[17]);
}

#[test]
fn terrain_chunk_measures_and_splits() {
    let s = Sprite::from_collider(vec![true; 256], 8 * SUBPIXEL, 0, 100, 60);
    let chunk = TerrainChunk::Foreground(s);
    assert_eq!(chunk.pixel_count(), 1600 + 960);
    assert_eq!(chunk.loc(), (8 * SUBPIXEL, 0));
    let parts = chunk.quarter();
    assert_eq!(parts.len(), 4);
    assert!(parts.iter().all(|p| matches!(p, TerrainChunk::Foreground(_))));
    assert_eq!(parts[0].pixel_count(), 800 + 480);
}
