use pixel_world::collision_tree::CollisionTree;
use pixel_world::physics::{crowd_direction, GRAVITY, MICROS};
use pixel_world::sprite::{probe, Sprite, SUBPIXEL};

const TICK: i64 = 16667;

fn single_cell() -> Vec<bool> {
    let mut c = vec![false; 256];
    c[0] = true;
    c
}

fn character_at(px: i64, py: i64, scale: u32) -> Sprite {
    Sprite::from_collider(single_cell(), px * SUBPIXEL, py * SUBPIXEL, scale, scale)
}

#[test]
fn resting_character_lands_on_block_below() {
    let mut terrain = CollisionTree::new(-64, -64, 256, 256);
    let rubble = CollisionTree::new(-64, -64, 256, 256);
    terrain.insert_rect(0, 32, 16, 16).unwrap();
    let mut s = character_at(0, 31, 1);
    let mut ticks = 0;
    loop {
        let r = s.step(&terrain, &rubble, TICK);
        ticks += 1;
        if r.vertical.blocked {
            assert!(r.falling);
            break;
        }
        assert!(!s.ground_contact);
        assert!(ticks < 100);
    }
    assert!(s.ground_contact);
    assert_eq!(s.vy, 0);
    assert_eq!(s.y, 31 * SUBPIXEL);
    assert_eq!(s.x, 0);
}

#[test]
fn scaled_character_lands_one_scaled_pixel_above() {
    let mut terrain = CollisionTree::new(-64, -64, 512, 512);
    let rubble = CollisionTree::new(-64, -64, 512, 512);
    terrain.insert_rect(0, 100, 64, 16).unwrap();
    let mut s = character_at(0, 96, 4);
    for _ in 0..100 {
        let r = s.step(&terrain, &rubble, TICK);
        if r.vertical.blocked {
            break;
        }
    }
    assert!(s.ground_contact);
    assert_eq!(s.vy, 0);
    assert_eq!(s.y, 96 * SUBPIXEL);
}

#[test]
fn gravity_adds_per_tick() {
    let terrain = CollisionTree::new(0, 0, 64, 64);
    let rubble = CollisionTree::new(0, 0, 64, 64);
    let mut s = character_at(1000, 1000, 1);
    s.step(&terrain, &rubble, TICK);
    assert_eq!(s.vy, GRAVITY * TICK / MICROS);
    assert_eq!(s.vy, 58);
    let mut still = character_at(1000, 1000, 1);
    still.gravity = false;
    still.step(&terrain, &rubble, TICK);
    assert_eq!(still.vy, 0);
    assert_eq!(still.sleep_timer, TICK);
}

#[test]
fn sweep_moves_whole_pixels() {
    let terrain = CollisionTree::new(0, 0, 64, 64);
    let rubble = CollisionTree::new(0, 0, 64, 64);
    let mut s = character_at(10, 10, 2);
    s.gravity = false;
    s.vx = 3 * SUBPIXEL;
    let r = s.step(&terrain, &rubble, TICK);
    assert_eq!(r.horizontal.moved, 6);
    assert!(!r.horizontal.blocked);
    assert_eq!(s.x, 16 * SUBPIXEL);
}

#[test]
fn wall_stops_horizontal_sweep() {
    let mut terrain = CollisionTree::new(0, 0, 64, 64);
    let rubble = CollisionTree::new(0, 0, 64, 64);
    terrain.insert_rect(14, 0, 4, 64).unwrap();
    let mut s = character_at(10, 10, 1);
    s.gravity = false;
    s.vx = 8 * SUBPIXEL;
    let r = s.step(&terrain, &rubble, TICK);
    assert!(r.horizontal.blocked);
    assert_eq!(r.horizontal.moved, 3);
    assert_eq!(s.x, 13 * SUBPIXEL);
}

#[test]
fn rubble_is_passable_and_reported() {
    let mut terrain = CollisionTree::new(0, 0, 64, 64);
    let mut rubble = CollisionTree::new(0, 0, 64, 64);
    terrain.insert_rect(14, 0, 4, 64).unwrap();
    rubble.insert_rect(14, 0, 4, 64).unwrap();
    let mut s = character_at(10, 10, 1);
    s.gravity = false;
    s.vx = 8 * SUBPIXEL;
    let r = s.step(&terrain, &rubble, TICK);
    assert!(!r.horizontal.blocked);
    assert!(r.in_rubble);
    assert_eq!(s.x, 18 * SUBPIXEL);
}

#[test]
fn friction_slows_grounded_sprites() {
    let mut terrain = CollisionTree::new(0, 0, 64, 64);
    let rubble = CollisionTree::new(0, 0, 64, 64);
    terrain.insert_rect(0, 11, 64, 4).unwrap();
    let mut s = character_at(10, 10, 1);
    s.ground_contact = true;
    s.vx = 100;
    s.step(&terrain, &rubble, TICK);
    assert!(s.ground_contact);
    assert_eq!(s.vx, 100 - 1024 * TICK / MICROS);
    s.vx = -5;
    s.step(&terrain, &rubble, TICK);
    assert_eq!(s.vx, 0);
}

#[test]
fn probe_reports_terrain_and_rubble() {
    let mut terrain = CollisionTree::new(0, 0, 64, 64);
    let mut rubble = CollisionTree::new(0, 0, 64, 64);
    terrain.insert(3, 3).unwrap();
    let p = probe(&single_cell(), &terrain, &rubble, 3, 3, 1, 1);
    assert!(p.blocked && !p.in_rubble);
    rubble.insert(3, 3).unwrap();
    let p = probe(&single_cell(), &terrain, &rubble, 3, 3, 1, 1);
    assert!(!p.blocked && p.in_rubble);
    let p = probe(&single_cell(), &terrain, &rubble, 4, 3, 1, 1);
    assert!(!p.blocked && !p.in_rubble);
}

#[test]
fn player_is_pushed_out_of_terrain() {
    let mut terrain = CollisionTree::new(0, 0, 128, 128);
    let rubble = CollisionTree::new(0, 0, 128, 128);
    // a wall over the left columns of the player's box
    terrain.insert_rect(20, 20, 2, 16).unwrap();
    let c = vec![true; 256];
    assert_eq!(crowd_direction(&c, &terrain, &rubble, 20, 20, 1, 1), (32, 4));
    let mut s = Sprite::from_collider(c, 20 * SUBPIXEL, 20 * SUBPIXEL, 1, 1);
    s.is_player = true;
    s.gravity = false;
    s.escape_corners(&terrain, &rubble);
    assert_eq!(s.x, 21 * SUBPIXEL);
    assert_eq!(s.y, 21 * SUBPIXEL);
}
