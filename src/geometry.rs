//! Integer geometry shared by the collision and physics code: division that
//! rounds toward zero, logical-cell scaling, and rectangle tests.
use vstd::prelude::*;

verus! {

/// `a / b` rounded toward zero, as integer division does in Rust.
pub open spec fn div_trunc(a: int, b: int) -> int {
    if a >= 0 {
        a / b
    } else {
        -((-a) / b)
    }
}

/// `a / b` rounded toward zero.
pub fn div_trunc_i64(a: i64, b: i64) -> (r: i64)
    requires
        b > 0,
        a > i64::MIN,
    ensures
        r == div_trunc(a as int, b as int),
{
    if a >= 0 {
        a / b
    } else {
        -((-a) / b)
    }
}

/// World offset `(x, y)` expressed in logical cells of the given scales,
/// rounded toward zero.
pub fn to_scale(x: i32, y: i32, x_scale: u32, y_scale: u32) -> (r: (i32, i32))
    requires
        0 < x_scale <= i32::MAX,
        0 < y_scale <= i32::MAX,
    ensures
        r.0 == div_trunc(x as int, x_scale as int),
        r.1 == div_trunc(y as int, y_scale as int),
{
    let a = div_trunc_i64(x as i64, x_scale as i64);
    let b = div_trunc_i64(y as i64, y_scale as i64);
    proof {
        lemma_div_trunc_bounds(x as int, x_scale as int);
        lemma_div_trunc_bounds(y as int, y_scale as int);
    }
    (a as i32, b as i32)
}

/// Logical-cell offset `(x, y)` expressed in world pixels of the given scales.
pub fn from_scale(x: i32, y: i32, x_scale: u32, y_scale: u32) -> (r: (i32, i32))
    requires
        i32::MIN <= x * x_scale <= i32::MAX,
        i32::MIN <= y * y_scale <= i32::MAX,
    ensures
        r.0 == x * x_scale,
        r.1 == y * y_scale,
{
    let a = x as i64 * x_scale as i64;
    let b = y as i64 * y_scale as i64;
    (a as i32, b as i32)
}

/// Dividing by a positive number rounding toward zero never grows the magnitude.
pub proof fn lemma_div_trunc_bounds(a: int, b: int)
    requires
        b > 0,
    ensures
        a >= 0 ==> 0 <= div_trunc(a, b) <= a,
        a < 0 ==> a <= div_trunc(a, b) <= 0,
{
    if a >= 0 {
        vstd::arithmetic::div_mod::lemma_div_pos_is_pos(a, b);
        vstd::arithmetic::div_mod::lemma_div_is_ordered_by_denominator(a, 1, b);
    } else {
        vstd::arithmetic::div_mod::lemma_div_pos_is_pos(-a, b);
        vstd::arithmetic::div_mod::lemma_div_is_ordered_by_denominator(-a, 1, b);
    }
}

/// The rectangle `a = (x, y, w, h)` overlaps `b` on both axes, as vek's
/// axis-aligned boxes test it (`a.max > b.min && a.min < b.max`).
pub open spec fn boxes_collide(a: (i32, i32, i32, i32), b: (i32, i32, i32, i32)) -> bool {
    &&& a.0 + a.2 > b.0
    &&& a.0 < b.0 + b.2
    &&& a.1 + a.3 > b.1
    &&& a.1 < b.1 + b.3
}

/// The corners of the rectangle `(x, y, w, h)` fit in `i32`.
pub open spec fn rect_fits(a: (i32, i32, i32, i32)) -> bool {
    i32::MIN <= a.0 + a.2 <= i32::MAX && i32::MIN <= a.1 + a.3 <= i32::MAX
}

pub open spec fn min_int(a: int, b: int) -> int {
    if a < b {
        a
    } else {
        b
    }
}

pub open spec fn max_int(a: int, b: int) -> int {
    if a > b {
        a
    } else {
        b
    }
}

/// Relies on vek's `Rect::collides_with_rect` for `Rect<i32, i32>`: it turns
/// both rectangles into boxes `min = position`, `max = position + extent` and
/// reports `a.max > b.min && a.min < b.max` on each axis.
#[verifier::external_body]
fn rects_collide(a: (i32, i32, i32, i32), b: (i32, i32, i32, i32)) -> (r: bool)
    requires
        rect_fits(a),
        rect_fits(b),
    ensures
        r == boxes_collide(a, b),
{
    let ra = vek::geom::Rect::new(a.0, a.1, a.2, a.3);
    let rb = vek::geom::Rect::new(b.0, b.1, b.2, b.3);
    ra.collides_with_rect(rb)
}

/// Relies on vek's `Rect::intersection` for `Rect<i32, i32>`: the box from the
/// larger of the two minima to the smaller of the two maxima, turned back into
/// a position and an extent.
#[verifier::external_body]
fn rect_intersection(a: (i32, i32, i32, i32), b: (i32, i32, i32, i32)) -> (r: (
    i32,
    i32,
    i32,
    i32,
))
    requires
        rect_fits(a),
        rect_fits(b),
        boxes_collide(a, b),
    ensures
        r.0 == max_int(a.0 as int, b.0 as int),
        r.1 == max_int(a.1 as int, b.1 as int),
        r.0 + r.2 == min_int(a.0 + a.2, b.0 + b.2),
        r.1 + r.3 == min_int(a.1 + a.3, b.1 + b.3),
{
    let ra = vek::geom::Rect::new(a.0, a.1, a.2, a.3);
    let rb = vek::geom::Rect::new(b.0, b.1, b.2, b.3);
    let c = ra.intersection(rb);
    (c.x, c.y, c.w, c.h)
}

/// The shared part of two rectangles, or `None` when they do not overlap.
pub fn overlap_rect(a: (i32, i32, i32, i32), b: (i32, i32, i32, i32)) -> (r: Option<
    (i32, i32, i32, i32),
>)
    requires
        rect_fits(a),
        rect_fits(b),
    ensures
        r is None <==> !boxes_collide(a, b),
        r matches Some(c) ==> {
            &&& c.0 == max_int(a.0 as int, b.0 as int)
            &&& c.1 == max_int(a.1 as int, b.1 as int)
            &&& c.0 + c.2 == min_int(a.0 + a.2, b.0 + b.2)
            &&& c.1 + c.3 == min_int(a.1 + a.3, b.1 + b.3)
        },
{
    if rects_collide(a, b) {
        Some(rect_intersection(a, b))
    } else {
        None
    }
}

} // verus!
