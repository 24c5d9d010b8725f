use pixel_world::scene::{debris_velocity, in_reach, particle_fate, ParticleFate, Scene, MAX_PARTICLES};
use pixel_world::sprite::{PotionType, Sprite, SUBPIXEL};
use pixel_world::tiles::LAYER_TERRAIN;

const TICK: i64 = 16667;

fn queued(s: &Scene) -> Vec<(u32, i32, i32)> {
    let mut v: Vec<(u32, i32, i32)> = (0..s.tile_queue.len()).map(|i| s.tile_queue.get(i).unwrap()).collect();
    v.sort();
    v
}

#[test]
fn carve_throws_one_debris_per_solid_cell_in_the_disk() {
    let mut scene = Scene::new();
    // the entity's top-left pixel is (0, 0) at scale 4: cells are 4 by 4,
    // the centre is (32, 32) and the radius 32
    let cells = [(8, 8), (10, 8), (8, 12)];
    for (dx, dy) in cells {
        scene.collision_map.insert_rect(dx * 4, dy * 4, 4, 4).unwrap();
    }
    // outside the disk
    scene.collision_map.insert_rect(0, 0, 4, 4).unwrap();
    let mut debris = Vec::new();
    scene.carve(0, 0, 4, 4, &mut debris);
    assert_eq!(debris.len(), 3);
    for d in &debris {
        let ex = d.x / SUBPIXEL - 32;
        let ey = d.y / SUBPIXEL - 32;
        assert!(d.vx != 0 || d.vy != 0);
        if ex != 0 || ey != 0 {
            assert!(d.vx * ex + d.vy * ey > 0);
        }
        assert!(d.collider[0]);
        assert_eq!(d.collider.iter().filter(|c| **c).count(), 1);
        assert_eq!((d.x_scale, d.y_scale), (4, 4));
    }
    for (dx, dy) in cells {
        assert!(!scene.collision_map.check_rect(dx * 4, dy * 4, 4, 4));
    }
    assert!(scene.collision_map.check_point(0, 0));
    assert_eq!(queued(&scene), vec![(LAYER_TERRAIN, 0, 0)]);
}

#[test]
fn carve_marks_tiles_of_cleared_cells_across_tile_edges() {
    let mut scene = Scene::new();
    // scale 8 at (-64, 200): centre (0, 264), radius 64
    scene.collision_map.insert_rect(-8, 248, 8, 8).unwrap(); // cell (7, 6)
    scene.collision_map.insert_rect(0, 256, 8, 8).unwrap(); // cell (8, 7)
    let mut debris = Vec::new();
    scene.carve(-64, 200, 8, 8, &mut debris);
    assert_eq!(debris.len(), 2);
    assert_eq!(queued(&scene), vec![(1, -1, 0), (1, 0, 1)]);
}

#[test]
fn carve_respects_particle_cap() {
    let mut scene = Scene::new();
    scene.collision_map.insert_rect(0, 0, 64, 64).unwrap();
    let mut debris = Vec::new();
    let mut one = vec![false; 256];
    one[0] = true;
    for _ in 0..(MAX_PARTICLES - 2) {
        debris.push(Sprite::from_collider(one.clone(), 0, 0, 1, 1));
    }
    let before = debris.len();
    scene.carve(0, 0, 4, 4, &mut debris);
    assert_eq!(debris.len(), MAX_PARTICLES);
    assert!(debris.len() > before);
}

#[test]
fn debris_velocity_points_outward() {
    assert_eq!(debris_velocity(0, 0), (-512, 0));
    assert_eq!(debris_velocity(8, 0), (512, 0));
    assert_eq!(debris_velocity(-3, 6), (-256, 512));
    assert_eq!(debris_velocity(-10, -5), (-512, -256));
}

#[test]
fn growing_character_carves_terrain_during_a_tick() {
    let mut scene = Scene::new();
    let mut c = Sprite::from_collider(vec![true; 256], 0, 0, 2, 2);
    c.gravity = false;
    c.drink(PotionType::Relative(2, 2));
    c.potion_timer = Some(1);
    let id = scene.add_character(c);
    // terrain inside the grown entity's disk
    scene.collision_map.insert_rect(0, 0, 4, 4).unwrap();
    scene.step_physics(0, 0, 8, TICK);
    let s = scene.sprites[id].as_ref().unwrap();
    assert_eq!((s.x_scale, s.y_scale), (4, 4));
    assert_eq!((s.x, s.y), (-16 * SUBPIXEL, -32 * SUBPIXEL));
    assert_eq!(scene.particles.len(), 1);
    assert!(!scene.collision_map.check_rect(0, 0, 4, 4));
}

#[test]
fn overlapping_character_drinks_potion_and_takes_collectable() {
    let mut scene = Scene::new();
    let mut c = Sprite::from_collider(vec![true; 256], 0, 0, 1, 1);
    c.gravity = false;
    let cid = scene.add_character(c);
    let mut p = Sprite::from_collider(vec![true; 256], 4 * SUBPIXEL, 4 * SUBPIXEL, 1, 1);
    p.gravity = false;
    let pid = scene.add_potion(p, PotionType::Relative(1, 1), false);
    let mut g = Sprite::from_collider(vec![true; 256], 8 * SUBPIXEL, 0, 1, 1);
    g.gravity = false;
    let gid = scene.add_collectable(g);
    let mut far = Sprite::from_collider(vec![true; 256], 100 * SUBPIXEL, 0, 1, 1);
    far.gravity = false;
    let fid = scene.add_potion(far, PotionType::Relative(3, 3), false);
    scene.step_physics(0, 0, 8, TICK);
    assert!(scene.sprites[pid].is_none());
    assert!(scene.sprites[gid].is_none());
    assert!(scene.sprites[fid].is_some());
    assert_eq!(scene.score, 1);
    assert!(!scene.done);
    assert_eq!(scene.potions.len(), 1);
    let s = scene.sprites[cid].as_ref().unwrap();
    assert_eq!(s.pending_potions, vec![PotionType::Relative(1, 1)]);
}

#[test]
fn end_sequence_potion_rewrites_the_others() {
    let mut scene = Scene::new();
    let mut c = Sprite::from_collider(vec![true; 256], 0, 0, 1, 1);
    c.gravity = false;
    scene.add_character(c);
    let mut p = Sprite::from_collider(vec![true; 256], 0, 0, 1, 1);
    p.gravity = false;
    scene.add_potion(p, PotionType::Absolute(Some(3), None), true);
    let mut far = Sprite::from_collider(vec![true; 256], 500 * SUBPIXEL, 0, 1, 1);
    far.gravity = false;
    scene.add_potion(far, PotionType::Relative(-3, -3), false);
    scene.step_physics(0, 0, 8, TICK);
    assert!(scene.end_sequence_triggered);
    assert_eq!(scene.potions.len(), 1);
    assert_eq!(scene.potions[0].1, PotionType::Relative(10, 10));
}

#[test]
fn resting_particle_turns_into_terrain_and_rubble() {
    let mut scene = Scene::new();
    let mut p = Sprite::from_collider(vec![true; 256], 10 * SUBPIXEL, 20 * SUBPIXEL, 1, 1);
    p.gravity = false;
    p.ground_contact = true;
    p.sleep_timer = 600000;
    let id = scene.add_particle(p);
    scene.step_physics(1000, 1000, 8, TICK);
    assert!(scene.sprites[id].is_none());
    assert!(scene.particles.is_empty());
    assert!(scene.collision_map.check_point(10, 20));
    assert!(scene.collision_map.check_point(25, 35));
    assert!(scene.rubble_map.check_point(25, 35));
    assert!(!scene.collision_map.check_point(26, 35));
    assert_eq!(queued(&scene), vec![(LAYER_TERRAIN, 0, 0)]);
}

#[test]
fn fallen_particle_is_dropped() {
    let mut scene = Scene::new();
    let mut p = Sprite::from_collider(vec![true; 256], 0, 30001 * SUBPIXEL, 1, 1);
    p.gravity = false;
    let id = scene.add_particle(p);
    scene.step_physics(0, 0, 8, TICK);
    assert!(scene.sprites[id].is_none());
    assert!(scene.particles.is_empty());
    assert!(!scene.collision_map.check_point(0, 30001));
}

#[test]
fn terrain_sprite_is_indexed_with_its_tiles() {
    let mut scene = Scene::new();
    let mut c = vec![false; 256];
    c[0] = true;
    c[255] = true;
    let s = Sprite::from_collider(c, 250 * SUBPIXEL, 0, 1, 1);
    scene.add_terrain(&s);
    assert!(scene.collision_map.check_point(250, 0));
    assert!(scene.collision_map.check_point(265, 15));
    assert!(!scene.collision_map.check_point(251, 0));
    assert_eq!(queued(&scene), vec![(1, 0, 0), (1, 1, 0)]);
    scene.clear_terrain(&s);
    assert!(!scene.collision_map.check_point(250, 0));
}

#[test]
fn sprites_overlap_on_shared_solid_pixels() {
    let mut a_cells = vec![false; 256];
    a_cells[15] = true; // cell (15, 0)
    let a = Sprite::from_collider(a_cells, 0, 0, 2, 2);
    let mut b_cells = vec![false; 256];
    b_cells[0] = true;
    let b = Sprite::from_collider(b_cells.clone(), 31 * SUBPIXEL, SUBPIXEL, 1, 1);
    assert!(a.overlap(&b));
    let c = Sprite::from_collider(b_cells, 32 * SUBPIXEL, SUBPIXEL, 1, 1);
    assert!(!a.overlap(&c));
}

#[test]
fn particle_fate_follows_depth_then_rest() {
    let mut p = Sprite::from_collider(vec![true; 256], 0, 30000 * SUBPIXEL, 1, 1);
    assert_eq!(particle_fate(&p), ParticleFate::Keep);
    p.y = 30000 * SUBPIXEL + 1;
    assert_eq!(particle_fate(&p), ParticleFate::Despawn);
    p.y = 0;
    p.ground_contact = true;
    p.sleep_timer = 500000;
    assert_eq!(particle_fate(&p), ParticleFate::Keep);
    p.sleep_timer = 500001;
    assert_eq!(particle_fate(&p), ParticleFate::Settle);
    p.ground_contact = false;
    assert_eq!(particle_fate(&p), ParticleFate::Keep);
}

#[test]
fn reach_scales_with_camera() {
    assert!(in_reach(1920, 0, 0, 0, 1));
    assert!(!in_reach(1921, 0, 0, 0, 1));
    assert!(in_reach(3000, 3000, 0, 0, 8));
    assert!(!in_reach(-2000000000, 0, 2000000000, 0, 4096));
}

#[test]
fn potions_drunk_in_separate_ticks_fold_into_one_change() {
    let mut scene = Scene::new();
    let mut c = Sprite::from_collider(vec![true; 256], 0, 0, 8, 8);
    c.gravity = false;
    let cid = scene.add_character(c);
    let mut p = Sprite::from_collider(vec![true; 256], 10 * SUBPIXEL, 10 * SUBPIXEL, 1, 1);
    p.gravity = false;
    scene.add_potion(p, PotionType::Relative(10, 10), false);
    scene.step_physics(0, 0, 8, TICK);
    let mut q = Sprite::from_collider(vec![true; 256], 20 * SUBPIXEL, 20 * SUBPIXEL, 1, 1);
    q.gravity = false;
    scene.add_potion(q, PotionType::Relative(5, 0), false);
    scene.step_physics(0, 0, 8, TICK);
    {
        let s = scene.sprites[cid].as_ref().unwrap();
        assert_eq!(s.pending_potions, vec![PotionType::Relative(10, 10), PotionType::Relative(5, 0)]);
        assert_eq!(s.potion_timer, Some(1000000 - 2 * TICK));
    }
    let start = (scene.sprites[cid].as_ref().unwrap().x, scene.sprites[cid].as_ref().unwrap().y);
    let mut ticks = 2;
    loop {
        scene.step_physics(0, 0, 8, TICK);
        ticks += 1;
        let s = scene.sprites[cid].as_ref().unwrap();
        if s.pending_potions.is_empty() {
            assert_eq!((s.x_scale, s.y_scale), (23, 18));
            assert_eq!(s.x, start.0 - 8 * SUBPIXEL * 15);
            assert_eq!(s.y, start.1 - 16 * SUBPIXEL * 10);
            break;
        }
        assert_eq!((s.x_scale, s.y_scale), (8, 8));
        assert_eq!((s.x, s.y), start);
        assert!(ticks < 100);
    }
    assert_eq!(ticks, 60);
}
