//! Entities: a 16 by 16 logical collider mask placed in the world at an
//! integer scale per axis, with fixed-point position and velocity.
//!
//! Positions are in `1 / SUBPIXEL` world pixels; velocities are in
//! `1 / SUBPIXEL` logical cells per tick, so a velocity moves an entity by
//! `velocity * scale / SUBPIXEL` world pixels per tick.
use crate::collision_tree::{in_rect, CollisionTree};
use crate::geometry::div_trunc;
use vstd::prelude::*;

verus! {

/// Side of the logical collider mask, in cells.
pub const SPRITE_WIDTH: usize = 16;

/// Number of cells of a collider mask.
pub const CELLS: usize = 256;

/// Fixed-point units per world pixel, and per logical cell per tick.
pub const SUBPIXEL: i64 = 1024;

/// Largest scale a size change can reach.
pub const MAX_SCALE: u32 = 180;

/// Largest scale any entity may have.
pub const SCALE_LIMIT: u32 = 4096;

/// Entities keep their top-left pixel within this distance of the origin.
pub const PIXEL_LIMIT: i64 = 268435456;

/// Entities keep each velocity component within this magnitude.
pub const VELOCITY_LIMIT: i64 = 1073741824;

/// A size change carried by a potion.
#[derive(Clone, Copy, PartialEq, Eq, Debug)]
pub enum PotionType {
    /// Adds to the horizontal and vertical scales.
    Relative(i32, i32),
    /// Sets either scale outright, or leaves it when `None`.
    Absolute(Option<i32>, Option<i32>),
}

/// A simulated entity.
pub struct Sprite {
    pub is_player: bool,
    /// Row-major solid cells, `collider[x + y * SPRITE_WIDTH]`.
    pub collider: Vec<bool>,
    /// Top-left corner, in `1 / SUBPIXEL` world pixels.
    pub x: i64,
    pub y: i64,
    pub x_scale: u32,
    pub y_scale: u32,
    /// Velocity, in `1 / SUBPIXEL` logical cells per tick.
    pub vx: i64,
    pub vy: i64,
    pub ground_contact: bool,
    pub jumping: bool,
    /// Microseconds left before pending size changes apply.
    pub potion_timer: Option<i64>,
    pub pending_potions: Vec<PotionType>,
    /// Microseconds spent at low speed.
    pub sleep_timer: i64,
    pub gravity: bool,
}

/// World pixel of a fixed-point coordinate, rounded toward zero.
pub open spec fn pixel_of(v: int) -> int {
    div_trunc(v, SUBPIXEL as int)
}

/// A fixed-point coordinate whose pixel stays within `PIXEL_LIMIT`.
pub open spec fn coord_ok(v: int) -> bool {
    -PIXEL_LIMIT * SUBPIXEL <= v <= PIXEL_LIMIT * SUBPIXEL
}

/// Column of cell `i` of a collider.
pub open spec fn cell_col(i: int) -> int {
    i % (SPRITE_WIDTH as int)
}

/// Row of cell `i` of a collider.
pub open spec fn cell_row(i: int) -> int {
    i / (SPRITE_WIDTH as int)
}

/// The world pixel `(qx, qy)` lies in the rectangle of cell `i` of a collider
/// placed with its top-left pixel at `(px, py)`.
pub open spec fn in_cell(i: int, px: int, py: int, xs: int, ys: int, qx: int, qy: int) -> bool {
    in_rect(qx, qy, px + cell_col(i) * xs, py + cell_row(i) * ys, xs, ys)
}

/// Some solid cell among the first `n` of collider `c`, placed at `(px, py)`,
/// covers the world pixel `(qx, qy)`.
pub open spec fn covers_upto(
    c: Seq<bool>,
    n: int,
    px: int,
    py: int,
    xs: int,
    ys: int,
    qx: int,
    qy: int,
) -> bool
    decreases n,
{
    if n <= 0 {
        false
    } else {
        covers_upto(c, n - 1, px, py, xs, ys, qx, qy) || (c[n - 1] && in_cell(
            n - 1,
            px,
            py,
            xs,
            ys,
            qx,
            qy,
        ))
    }
}

/// Some solid cell of collider `c`, placed at `(px, py)`, covers `(qx, qy)`.
pub open spec fn covers(c: Seq<bool>, px: int, py: int, xs: int, ys: int, qx: int, qy: int) -> bool {
    covers_upto(c, CELLS as int, px, py, xs, ys, qx, qy)
}

/// Some pixel of the rectangle of cell `i`, placed at `(px, py)`, is solid in `t`.
pub open spec fn cell_hits(t: CollisionTree, i: int, px: int, py: int, xs: int, ys: int) -> bool {
    t.rect_solid(px + cell_col(i) * xs, py + cell_row(i) * ys, xs, ys)
}

/// Among the first `n` cells of `c` placed at `(px, py)`, some solid cell
/// meets `terrain` without meeting `rubble`.
pub open spec fn blocked_upto(
    c: Seq<bool>,
    n: int,
    terrain: CollisionTree,
    rubble: CollisionTree,
    px: int,
    py: int,
    xs: int,
    ys: int,
) -> bool
    decreases n,
{
    if n <= 0 {
        false
    } else {
        blocked_upto(c, n - 1, terrain, rubble, px, py, xs, ys) || (c[n - 1] && !cell_hits(
            rubble,
            n - 1,
            px,
            py,
            xs,
            ys,
        ) && cell_hits(terrain, n - 1, px, py, xs, ys))
    }
}

/// Among the first `n` cells of `c` placed at `(px, py)`, some solid cell meets `rubble`.
pub open spec fn rubble_upto(
    c: Seq<bool>,
    n: int,
    rubble: CollisionTree,
    px: int,
    py: int,
    xs: int,
    ys: int,
) -> bool
    decreases n,
{
    if n <= 0 {
        false
    } else {
        rubble_upto(c, n - 1, rubble, px, py, xs, ys) || (c[n - 1] && cell_hits(
            rubble,
            n - 1,
            px,
            py,
            xs,
            ys,
        ))
    }
}

/// What testing a collider at one position found.
pub struct Probe {
    /// Some solid cell meets terrain and not rubble.
    pub blocked: bool,
    /// Some solid cell meets rubble.
    pub in_rubble: bool,
}

/// Placement of a collider whose cells all fit `i32` world coordinates.
pub open spec fn placement_ok(px: int, py: int, xs: int, ys: int) -> bool {
    &&& -PIXEL_LIMIT <= px <= PIXEL_LIMIT
    &&& -PIXEL_LIMIT <= py <= PIXEL_LIMIT
    &&& 0 < xs <= SCALE_LIMIT
    &&& 0 < ys <= SCALE_LIMIT
}

proof fn lemma_cell_bounds(i: int)
    requires
        0 <= i < CELLS,
    ensures
        0 <= cell_col(i) < 16,
        0 <= cell_row(i) < 16,
{
}

/// Top-left world pixel of cell `i` of a collider placed at `(px, py)`.
pub fn cell_origin(i: usize, px: i32, py: i32, xs: u32, ys: u32) -> (r: (i32, i32))
    requires
        i < CELLS,
        placement_ok(px as int, py as int, xs as int, ys as int),
    ensures
        r.0 == px + cell_col(i as int) * xs,
        r.1 == py + cell_row(i as int) * ys,
        0 <= cell_col(i as int) * xs <= 15 * SCALE_LIMIT,
        0 <= cell_row(i as int) * ys <= 15 * SCALE_LIMIT,
{
    let col = (i % SPRITE_WIDTH) as i32;
    let row = (i / SPRITE_WIDTH) as i32;
    proof {
        lemma_cell_bounds(i as int);
        assert(0 <= col * xs <= 15 * SCALE_LIMIT) by (nonlinear_arith)
            requires
                0 <= col < 16,
                0 < xs <= SCALE_LIMIT,
        ;
        assert(0 <= row * ys <= 15 * SCALE_LIMIT) by (nonlinear_arith)
            requires
                0 <= row < 16,
                0 < ys <= SCALE_LIMIT,
        ;
    }
    (px + col * xs as i32, py + row * ys as i32)
}

/// Tests collider `c`, placed with its top-left pixel at `(px, py)`, against
/// `terrain` and `rubble`, one cell rectangle at a time.
pub fn probe(
    c: &Vec<bool>,
    terrain: &CollisionTree,
    rubble: &CollisionTree,
    px: i32,
    py: i32,
    xs: u32,
    ys: u32,
) -> (r: Probe)
    requires
        c@.len() == CELLS,
        terrain.wf(),
        rubble.wf(),
        placement_ok(px as int, py as int, xs as int, ys as int),
    ensures
        r.blocked == blocked_upto(c@, CELLS as int, *terrain, *rubble, px as int, py as int, xs as int, ys as int),
        r.in_rubble == rubble_upto(c@, CELLS as int, *rubble, px as int, py as int, xs as int, ys as int),
{
    let mut blocked = false;
    let mut in_rubble = false;
    let mut i: usize = 0;
    while i < CELLS
        invariant
            i <= CELLS,
            c@.len() == CELLS,
            terrain.wf(),
            rubble.wf(),
            placement_ok(px as int, py as int, xs as int, ys as int),
            blocked == blocked_upto(c@, i as int, *terrain, *rubble, px as int, py as int, xs as int, ys as int),
            in_rubble == rubble_upto(c@, i as int, *rubble, px as int, py as int, xs as int, ys as int),
        decreases CELLS - i,
    {
        if c[i] {
            let (rx, ry) = cell_origin(i, px, py, xs, ys);
            if rubble.check_rect(rx, ry, xs, ys) {
                in_rubble = true;
            } else if terrain.check_rect(rx, ry, xs, ys) {
                blocked = true;
            }
        }
        i = i + 1;
    }
    Probe { blocked, in_rubble }
}

impl CollisionTree {
    /// Marks solid every pixel of the domain that a solid cell of the
    /// collider covers, placed with its top-left pixel at `(px, py)`.
    pub fn add_collider(&mut self, c: &Vec<bool>, px: i32, py: i32, xs: u32, ys: u32)
        requires
            old(self).wf(),
            c@.len() == CELLS,
            placement_ok(px as int, py as int, xs as int, ys as int),
        ensures
            final(self).wf(),
            final(self).same_domain(*old(self)),
            forall|qx: int, qy: int| #[trigger]
                final(self).has(qx, qy) == (old(self).has(qx, qy) || (old(self).in_domain(qx, qy)
                    && covers(c@, px as int, py as int, xs as int, ys as int, qx, qy))),
    {
        let ghost t0 = *self;
        let mut i: usize = 0;
        while i < CELLS
            invariant
                i <= CELLS,
                c@.len() == CELLS,
                self.wf(),
                self.same_domain(t0),
                placement_ok(px as int, py as int, xs as int, ys as int),
                forall|qx: int, qy: int| #[trigger]
                    self.has(qx, qy) == (t0.has(qx, qy) || (t0.in_domain(qx, qy) && covers_upto(
                        c@,
                        i as int,
                        px as int,
                        py as int,
                        xs as int,
                        ys as int,
                        qx,
                        qy,
                    ))),
            decreases CELLS - i,
        {
            if c[i] {
                let (rx, ry) = cell_origin(i, px, py, xs, ys);
                let _ = self.insert_rect(rx, ry, xs, ys);
            }
            i = i + 1;
        }
    }

    /// Makes free every pixel that a solid cell of the collider covers,
    /// placed with its top-left pixel at `(px, py)`.
    pub fn clear_collider(&mut self, c: &Vec<bool>, px: i32, py: i32, xs: u32, ys: u32)
        requires
            old(self).wf(),
            c@.len() == CELLS,
            placement_ok(px as int, py as int, xs as int, ys as int),
        ensures
            final(self).wf(),
            final(self).same_domain(*old(self)),
            forall|qx: int, qy: int| #[trigger]
                final(self).has(qx, qy) == (old(self).has(qx, qy) && !covers(
                    c@,
                    px as int,
                    py as int,
                    xs as int,
                    ys as int,
                    qx,
                    qy,
                )),
    {
        let ghost t0 = *self;
        let mut i: usize = 0;
        while i < CELLS
            invariant
                i <= CELLS,
                c@.len() == CELLS,
                self.wf(),
                self.same_domain(t0),
                placement_ok(px as int, py as int, xs as int, ys as int),
                forall|qx: int, qy: int| #[trigger]
                    self.has(qx, qy) == (t0.has(qx, qy) && !covers_upto(
                        c@,
                        i as int,
                        px as int,
                        py as int,
                        xs as int,
                        ys as int,
                        qx,
                        qy,
                    )),
            decreases CELLS - i,
        {
            if c[i] {
                let (rx, ry) = cell_origin(i, px, py, xs, ys);
                let _ = self.remove_rect(rx, ry, xs, ys);
            }
            i = i + 1;
        }
    }
}

} // verus!
