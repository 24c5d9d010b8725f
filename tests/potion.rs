use pixel_world::potion::{fold_pending, SCALE_CHANGE_TIMEOUT};
use pixel_world::sprite::{PotionType, Sprite, SUBPIXEL};

const TICK: i64 = 16667;

fn character(scale: u32) -> Sprite {
    Sprite::from_collider(vec![true; 256], 100 * SUBPIXEL, 200 * SUBPIXEL, scale, scale)
}

#[test]
fn two_relative_potions_apply_as_one_change() {
    let mut s = character(8);
    s.drink(PotionType::Relative(10, 10));
    assert_eq!(s.potion_timer, Some(SCALE_CHANGE_TIMEOUT));
    assert!(!s.advance_potion_timer(TICK, false));
    s.drink(PotionType::Relative(5, 0));
    // the running countdown is not restarted
    assert_eq!(s.potion_timer, Some(SCALE_CHANGE_TIMEOUT - TICK));
    let mut due = false;
    let mut ticks = 1;
    while !due {
        due = s.advance_potion_timer(TICK, false);
        ticks += 1;
        if !due {
            assert_eq!((s.x_scale, s.y_scale), (8, 8));
        }
    }
    assert_eq!(ticks, 60);
    let (dx, dy) = s.take_scale_delta(false);
    assert_eq!((dx, dy), (15, 10));
    assert!(s.pending_potions.is_empty());
    s.apply_scale_delta(dx, dy);
    assert_eq!((s.x_scale, s.y_scale), (23, 18));
}

#[test]
fn absolute_potions_override_later_wins() {
    let p = vec![
        PotionType::Relative(3, 3),
        PotionType::Absolute(Some(50), None),
        PotionType::Relative(1, 2),
        PotionType::Absolute(None, Some(7)),
    ];
    assert_eq!(fold_pending(&p, 10, 10), (51, 7));
}

#[test]
fn scale_change_is_clamped() {
    let mut s = character(170);
    s.drink(PotionType::Relative(40, -400));
    let (dx, dy) = s.take_scale_delta(false);
    assert_eq!((dx, dy), (10, -170));
    s.apply_scale_delta(dx, dy);
    assert_eq!((s.x_scale, s.y_scale), (180, 1));
}

#[test]
fn finale_forces_growth() {
    let mut s = character(10);
    s.drink(PotionType::Relative(-5, -5));
    assert_eq!(s.take_scale_delta(true), (20, 20));
}

#[test]
fn growth_keeps_centre_and_feet() {
    let mut s = character(4);
    let centre = 2 * s.x + 16 * SUBPIXEL * 4;
    let feet = s.y + 16 * SUBPIXEL * 4;
    s.apply_scale_delta(6, 2);
    assert_eq!((s.x_scale, s.y_scale), (10, 6));
    assert_eq!(2 * s.x + 16 * SUBPIXEL * 10, centre);
    assert_eq!(s.y + 16 * SUBPIXEL * 6, feet);
    assert_eq!(s.x, (100 - 48) * SUBPIXEL);
    assert_eq!(s.y, (200 - 32) * SUBPIXEL);
}

#[test]
fn lapsed_countdown_restarts_and_long_lapse_is_dropped() {
    let mut s = character(4);
    s.potion_timer = Some(-10);
    s.drink(PotionType::Relative(1, 1));
    assert_eq!(s.potion_timer, Some(SCALE_CHANGE_TIMEOUT));
    s.potion_timer = Some(-SCALE_CHANGE_TIMEOUT + 5);
    assert!(s.advance_potion_timer(TICK, false));
    assert_eq!(s.potion_timer, None);
    assert!(!s.advance_potion_timer(TICK, false));
}
