use pixel_world::collision_tree::CollisionTree;

/// Solid pixels of the whole domain, counted one by one.
fn count_solid(t: &CollisionTree) -> u64 {
    let mut n = 0;
    for x in t.x()..t.x() + t.width() as i64 {
        for y in t.y()..t.y() + t.height() as i64 {
            if t.check_point(x as i32, y as i32) {
                n += 1;
            }
        }
    }
    n
}

#[test]
fn new_rounds_sides_up_to_four() {
    let t = CollisionTree::new(-5, 7, 13, 16);
    assert_eq!(t.x(), -5);
    assert_eq!(t.y(), 7);
    assert_eq!(t.width(), 16);
    assert_eq!(t.height(), 16);
    assert_eq!(t.free_pixels(), 256);
}

#[test]
fn full_fill_then_half_removal() {
    let mut t = CollisionTree::new(0, 0, 256, 256);
    assert_eq!(t.insert_rect(0, 0, 256, 256), Ok(65536));
    assert_eq!(t.free_pixels(), 0);
    assert!(t.check_rect(10, 10, 5, 5));
    let (empty, removed) = t.remove_rect(0, 0, 128, 256);
    assert!(!empty);
    assert_eq!(removed, 128 * 256);
    assert!(t.check_rect(200, 10, 5, 5));
    assert!(!t.check_rect(10, 10, 5, 5));
    assert_eq!(t.free_pixels(), 128 * 256);
}

#[test]
fn insert_twice_reports_new_then_old() {
    let mut t = CollisionTree::new(0, 0, 128, 128);
    assert_eq!(t.insert(5, 6), Ok(true));
    assert_eq!(t.insert(5, 6), Ok(false));
    assert_eq!(t.free_pixels(), 128 * 128 - 1);
}

#[test]
fn insert_outside_domain_fails() {
    let mut t = CollisionTree::new(0, 0, 64, 64);
    assert_eq!(t.insert(64, 0), Err(()));
    assert_eq!(t.insert(-1, 3), Err(()));
    assert_eq!(t.insert(3, 64), Err(()));
    assert_eq!(t.free_pixels(), 64 * 64);
}

#[test]
fn remove_on_empty_tree_reports_empty_and_zero() {
    let mut t = CollisionTree::new(0, 0, 256, 256);
    assert_eq!(t.remove_rect(10, 10, 20, 20), (true, 0));
    assert_eq!(t.remove_rect(1000, 1000, 5, 5), (false, 0));
}

#[test]
fn remove_with_solid_pixels_elsewhere_is_not_empty() {
    let mut t = CollisionTree::new(0, 0, 256, 256);
    t.insert(200, 200).unwrap();
    assert_eq!(t.remove_rect(0, 0, 10, 10), (false, 0));
    assert_eq!(t.remove_rect(190, 190, 20, 20), (true, 1));
}

#[test]
fn insert_rect_missing_domain_fails() {
    let mut t = CollisionTree::new(0, 0, 64, 64);
    assert_eq!(t.insert_rect(64, 0, 10, 10), Err(()));
    assert_eq!(t.insert_rect(-10, 0, 10, 10), Err(()));
    assert_eq!(t.insert_rect(5, 5, 0, 10), Ok(0));
    assert_eq!(t.insert_rect(100, 5, 0, 10), Err(()));
    assert_eq!(t.free_pixels(), 64 * 64);
}

#[test]
fn insert_rect_is_clipped_to_domain() {
    let mut t = CollisionTree::new(0, 0, 64, 64);
    assert_eq!(t.insert_rect(-10, -10, 20, 20), Ok(100));
    assert_eq!(t.insert_rect(-10, -10, 20, 20), Ok(0));
    assert_eq!(t.free_pixels(), 64 * 64 - 100);
    assert!(t.check_point(9, 9));
    assert!(!t.check_point(10, 9));
}

#[test]
fn counter_matches_solid_pixels() {
    let mut t = CollisionTree::new(0, 0, 200, 150);
    t.insert_rect(10, 10, 100, 30).unwrap();
    t.insert(150, 140).unwrap();
    t.remove_rect(50, 0, 10, 200);
    t.insert_rect(100, 100, 100, 100).unwrap();
    let area = (t.width() * t.height()) as u64;
    assert_eq!(t.free_pixels() as u64 + count_solid(&t), area);
}

#[test]
fn fill_then_erase_leaves_no_solid_subrect() {
    let mut t = CollisionTree::new(0, 0, 256, 256);
    t.insert(3, 3).unwrap();
    t.insert_rect(20, 30, 90, 70).unwrap();
    t.remove_rect(20, 30, 90, 70);
    assert!(!t.check_rect(20, 30, 90, 70));
    assert!(!t.check_rect(60, 40, 10, 10));
    assert!(!t.check_rect(109, 99, 1, 1));
    assert!(t.check_point(3, 3));
}

#[test]
fn points_survive_across_a_subdivision() {
    let mut t = CollisionTree::new(0, 0, 128, 128);
    t.insert(1, 1).unwrap();
    t.insert(100, 100).unwrap();
    t.insert_rect(60, 60, 10, 10).unwrap();
    assert!(t.check_point(1, 1));
    assert!(t.check_point(100, 100));
    assert!(t.check_point(69, 69));
    assert_eq!(t.free_pixels(), 128 * 128 - 102);
}

#[test]
fn clear_frees_everything() {
    let mut t = CollisionTree::new(0, 0, 128, 128);
    t.insert_rect(0, 0, 128, 128).unwrap();
    t.clear();
    assert_eq!(t.free_pixels(), 128 * 128);
    assert!(!t.check_rect(0, 0, 128, 128));
}

#[test]
fn check_point_follows_history() {
    // a plain grid replays the same edits
    let mut t = CollisionTree::new(0, 0, 96, 80);
    let mut model = vec![vec![false; 80]; 96];
    let edits: Vec<(u8, i32, i32, u32, u32)> = vec![
        (0, 5, 5, 1, 1),
        (1, 10, 10, 50, 20),
        (2, 20, 0, 10, 80),
        (1, 60, 50, 40, 40),
        (0, 25, 15, 1, 1),
        (2, 0, 0, 12, 12),
        (1, 0, 70, 96, 10),
    ];
    for (kind, x, y, w, h) in edits {
        match kind {
            0 => {
                t.insert(x, y).unwrap();
            }
            1 => {
                t.insert_rect(x, y, w, h).unwrap();
            }
            _ => {
                t.remove_rect(x, y, w, h);
            }
        }
        for px in x.max(0)..(x + w as i32).min(96) {
            for py in y.max(0)..(y + h as i32).min(80) {
                model[px as usize][py as usize] = kind != 2;
            }
        }
    }
    for px in 0..96 {
        for py in 0..80 {
            assert_eq!(t.check_point(px, py), model[px as usize][py as usize], "at {} {}", px, py);
        }
    }
}

#[test]
fn negative_domain_works() {
    let mut t = CollisionTree::new(-10000, -10000, 40000, 40000);
    assert_eq!(t.width(), 40000);
    assert_eq!(t.insert(-9999, -9999), Ok(true));
    assert_eq!(t.insert_rect(-5, -5, 10, 10), Ok(100));
    assert!(t.check_point(-1, -1));
    assert!(t.check_rect(-9999, -9999, 1, 1));
    assert_eq!(t.remove_rect(-20, -20, 20, 20), (false, 25));
    assert!(!t.check_point(-1, -1));
    assert!(t.check_point(0, 0));
}
