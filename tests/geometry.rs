use pixel_world::geometry::{div_trunc_i64, from_scale, overlap_rect, to_scale};

#[test]
fn to_scale_rounds_toward_zero() {
    assert_eq!(to_scale(7, -7, 2, 2), (3, -3));
    assert_eq!(to_scale(100, 45, 10, 4), (10, 11));
    assert_eq!(to_scale(-1, 0, 3, 5), (0, 0));
}

#[test]
fn from_scale_multiplies() {
    assert_eq!(from_scale(3, -4, 5, 6), (15, -24));
}

#[test]
fn div_trunc_matches_rust() {
    assert_eq!(div_trunc_i64(-1025, 1024), -1);
    assert_eq!(div_trunc_i64(1025, 1024), 1);
}

#[test]
fn overlap_rect_intersects_boxes() {
    assert_eq!(overlap_rect((0, 0, 10, 10), (5, 6, 10, 10)), Some((5, 6, 5, 4)));
    assert_eq!(overlap_rect((0, 0, 10, 10), (10, 0, 5, 5)), None);
    assert_eq!(overlap_rect((-5, -5, 3, 3), (-4, -10, 1, 20)), Some((-4, -5, 1, 3)));
}
