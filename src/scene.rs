//! The scene: every entity, the four occupancy maps, the stale-tile queue,
//! and the level's completion state, advanced one tick at a time.
use crate::collision_tree::{in_rect, CollisionTree};
use crate::geometry::{overlap_rect, to_scale};
use crate::physics::{abs_int, stepped, StepReport};
use crate::potion::{clamp, scale_delta, MAX_TICK, SCALE_CHANGE_TIMEOUT};
use crate::sprite::{
    covers, placement_ok, PotionType, Sprite, CELLS, MAX_SCALE, SCALE_LIMIT,
    SPRITE_WIDTH, SUBPIXEL, coord_ok, pixel_of,
};
use crate::tiles::{tile_meets_rect, TileQueue, LAYER_BACKGROUND, LAYER_FOREGROUND, LAYER_TERRAIN};
use vstd::prelude::*;
use vstd::pervasive::VecAdditionalExecFns;

verus! {

/// Left and top edge of the world, in pixels.
pub const WORLD_MIN: i32 = -10000;

/// Width and height of the world, in pixels.
pub const WORLD_WIDTH: u32 = 40000;

/// Most particles alive at once.
pub const MAX_PARTICLES: usize = 300;

/// Microseconds a grounded particle rests before it turns into terrain.
pub const SETTLE_TIME: i64 = 500000;

/// Depth, in pixels, below which particles are dropped.
pub const DESPAWN_DEPTH: i64 = 30000;

/// Entities farther than this many pixels per unit of camera scale from the
/// camera do not move.
pub const CULL_DISTANCE: i64 = 1920;

/// Collectables wider than this scale end the level.
pub const GOAL_SCALE: u32 = 30;

/// Size change that every potion left in the level takes once the end
/// sequence has started.
pub const END_SEQUENCE_DELTA: i32 = 10;

/// Everything the simulation owns: entities, maps, the stale-tile queue and
/// the level state.
pub struct Scene {
    /// Entities by id; a removed entity leaves `None`.
    pub sprites: Vec<Option<Sprite>>,
    /// Potion entities with their size change and whether they start the end sequence.
    pub potions: Vec<(usize, PotionType, bool)>,
    pub characters: Vec<usize>,
    pub particles: Vec<usize>,
    pub collectables: Vec<usize>,
    /// Collectables taken so far, with their entities.
    pub collected: Vec<(usize, Sprite)>,
    pub collision_map: CollisionTree,
    pub rubble_map: CollisionTree,
    pub foreground_map: CollisionTree,
    pub background_map: CollisionTree,
    pub tile_queue: TileQueue,
    pub score: u32,
    pub final_potion_triggered: bool,
    pub end_sequence_triggered: bool,
    pub done: bool,
}

/// `t` is a well-formed map over the world rectangle with no solid pixel.
pub open spec fn is_world_map(t: CollisionTree) -> bool {
    &&& t.wf()
    &&& t.is_clear()
    &&& t.spec_x() == WORLD_MIN && t.spec_y() == WORLD_MIN
    &&& t.spec_width() == WORLD_WIDTH && t.spec_height() == WORLD_WIDTH
}

/// An empty occupancy map over the world rectangle.
pub fn world_map() -> (t: CollisionTree)
    ensures
        is_world_map(t),
{
    assert(crate::collision_tree::quantize(WORLD_WIDTH as int) == WORLD_WIDTH);
    assert(40000 * 40000 <= u32::MAX);
    let t = CollisionTree::new(WORLD_MIN, WORLD_MIN, WORLD_WIDTH, WORLD_WIDTH);
    proof {
        crate::collision_tree::lemma_free_pixels_account(t);
    }
    t
}

/// The world pixel `(qx, qy)` lies in a solid cell of `s`.
pub open spec fn solid_pixel(s: Sprite, qx: int, qy: int) -> bool {
    let px = pixel_of(s.x as int);
    let py = pixel_of(s.y as int);
    &&& px <= qx < px + SPRITE_WIDTH * s.x_scale
    &&& py <= qy < py + SPRITE_WIDTH * s.y_scale
    &&& s.collider@[(qx - px) / (s.x_scale as int) + SPRITE_WIDTH * ((qy - py) / (s.y_scale as int))]
}

/// Whether the pixel `(qx, qy)`, inside the box of `s` at `(px, py)`, is solid.
fn solid_at(s: &Sprite, px: i32, py: i32, qx: i32, qy: i32) -> (r: bool)
    requires
        s.wf(),
        px == pixel_of(s.x as int),
        py == pixel_of(s.y as int),
        placement_ok(px as int, py as int, s.x_scale as int, s.y_scale as int),
        px <= qx < px + SPRITE_WIDTH * s.x_scale,
        py <= qy < py + SPRITE_WIDTH * s.y_scale,
    ensures
        r == solid_pixel(*s, qx as int, qy as int),
{
    let (dx, dy) = to_scale(qx - px, qy - py, s.x_scale, s.y_scale);
    proof {
        let a = qx - px;
        let b = qy - py;
        vstd::arithmetic::div_mod::lemma_div_pos_is_pos(a, s.x_scale as int);
        vstd::arithmetic::div_mod::lemma_div_pos_is_pos(b, s.y_scale as int);
        vstd::arithmetic::div_mod::lemma_div_by_multiple_is_strongly_ordered(a, 16 * s.x_scale, 16, s.x_scale as int);
        vstd::arithmetic::div_mod::lemma_div_by_multiple_is_strongly_ordered(b, 16 * s.y_scale, 16, s.y_scale as int);
        assert(16 * s.x_scale == s.x_scale * 16);
        assert(16 * s.y_scale == s.y_scale * 16);
        vstd::arithmetic::div_mod::lemma_div_multiples_vanish(16, s.x_scale as int);
        vstd::arithmetic::div_mod::lemma_div_multiples_vanish(16, s.y_scale as int);
    }
    s.collider[dx as usize + SPRITE_WIDTH * dy as usize]
}

impl Sprite {
    /// Whether a world pixel lies in a solid cell of both entities.
    pub fn overlap(&self, other: &Sprite) -> (r: bool)
        requires
            self.wf(),
            other.wf(),
        ensures
            r == exists|qx: int, qy: int| solid_pixel(*self, qx, qy) && solid_pixel(*other, qx, qy),
    {
        let (ax, ay) = self.pixel_pos();
        let (bx, by) = other.pixel_pos();
        let a = (ax, ay, 16 * self.x_scale as i32, 16 * self.y_scale as i32);
        let b = (bx, by, 16 * other.x_scale as i32, 16 * other.y_scale as i32);
        match overlap_rect(a, b) {
            None => {
                proof {
                    assert forall|qx: int, qy: int| !(solid_pixel(*self, qx, qy) && solid_pixel(*other, qx, qy)) by {}
                }
                false
            },
            Some(c) => {
                let x1 = c.0 + c.2;
                let y1 = c.1 + c.3;
                let mut x = c.0;
                while x < x1
                    invariant
                        self.wf(),
                        other.wf(),
                        ax == pixel_of(self.x as int) && ay == pixel_of(self.y as int),
                        bx == pixel_of(other.x as int) && by == pixel_of(other.y as int),
                        placement_ok(ax as int, ay as int, self.x_scale as int, self.y_scale as int),
                        placement_ok(bx as int, by as int, other.x_scale as int, other.y_scale as int),
                        c.0 <= x <= x1,
                        c.1 < y1,
                        c.0 == crate::geometry::max_int(ax as int, bx as int),
                        c.1 == crate::geometry::max_int(ay as int, by as int),
                        x1 == crate::geometry::min_int(ax + 16 * self.x_scale, bx + 16 * other.x_scale),
                        y1 == crate::geometry::min_int(ay + 16 * self.y_scale, by + 16 * other.y_scale),
                        forall|qx: int, qy: int|
                            qx < x ==> !(solid_pixel(*self, qx, qy) && solid_pixel(*other, qx, qy)),
                    decreases x1 - x,
                {
                    let mut y = c.1;
                    while y < y1
                        invariant
                            self.wf(),
                            other.wf(),
                            ax == pixel_of(self.x as int) && ay == pixel_of(self.y as int),
                            bx == pixel_of(other.x as int) && by == pixel_of(other.y as int),
                            placement_ok(ax as int, ay as int, self.x_scale as int, self.y_scale as int),
                            placement_ok(bx as int, by as int, other.x_scale as int, other.y_scale as int),
                            c.0 <= x < x1,
                            c.1 <= y <= y1,
                            c.0 == crate::geometry::max_int(ax as int, bx as int),
                            c.1 == crate::geometry::max_int(ay as int, by as int),
                            x1 == crate::geometry::min_int(ax + 16 * self.x_scale, bx + 16 * other.x_scale),
                            y1 == crate::geometry::min_int(ay + 16 * self.y_scale, by + 16 * other.y_scale),
                            forall|qx: int, qy: int|
                                qx < x || (qx == x && qy < y) ==> !(solid_pixel(*self, qx, qy) && solid_pixel(*other, qx, qy)),
                        decreases y1 - y,
                    {
                        if solid_at(self, ax, ay, x, y) && solid_at(other, bx, by, x, y) {
                            return true;
                        }
                        y = y + 1;
                    }
                    x = x + 1;
                }
                false
            },
        }
    }
}

/// `(vx, vy)` points away from the offset `(ex, ey)`'s origin: it is not
/// zero, and has a positive dot product with a nonzero offset.
pub open spec fn points_away(vx: int, vy: int, ex: int, ey: int) -> bool {
    &&& (vx != 0 || vy != 0)
    &&& (ex != 0 || ey != 0) ==> vx * ex + vy * ey > 0
}

/// Speed of debris thrown out by a carve, in `1 / SUBPIXEL` cells per tick.
pub const DEBRIS_SPEED: i64 = 512;

/// Velocity of debris at offset `(ex, ey)` from the carve centre: `DEBRIS_SPEED`
/// along the larger component, the other scaled to keep the direction.
pub fn debris_velocity(ex: i64, ey: i64) -> (r: (i64, i64))
    requires
        -0x1000_0000 <= ex <= 0x1000_0000,
        -0x1000_0000 <= ey <= 0x1000_0000,
    ensures
        points_away(r.0 as int, r.1 as int, ex as int, ey as int),
        -DEBRIS_SPEED <= r.0 <= DEBRIS_SPEED,
        -DEBRIS_SPEED <= r.1 <= DEBRIS_SPEED,
{
    let ax = if ex >= 0 {
        ex
    } else {
        -ex
    };
    let ay = if ey >= 0 {
        ey
    } else {
        -ey
    };
    if ax == 0 && ay == 0 {
        return (-DEBRIS_SPEED, 0);
    }
    if ax >= ay {
        let vx = if ex > 0 {
            DEBRIS_SPEED
        } else {
            -DEBRIS_SPEED
        };
        let vy = crate::geometry::div_trunc_i64(DEBRIS_SPEED * ey, ax);
        proof {
            let q = DEBRIS_SPEED * ey;
            crate::geometry::lemma_div_trunc_bounds(q as int, ax as int);
            if ey >= 0 {
                assert(vy >= 0);
                assert(vy * ey >= 0) by (nonlinear_arith)
                    requires
                        vy >= 0,
                        ey >= 0,
                ;
            } else {
                assert(vy <= 0);
                assert(vy * ey >= 0) by (nonlinear_arith)
                    requires
                        vy <= 0,
                        ey < 0,
                ;
            }
            assert(vx * ex > 0) by (nonlinear_arith)
                requires
                    ex > 0 ==> vx == DEBRIS_SPEED,
                    ex <= 0 ==> vx == -DEBRIS_SPEED,
                    ex != 0,
            ;
            assert(-DEBRIS_SPEED <= vy <= DEBRIS_SPEED) by {
                vstd::arithmetic::div_mod::lemma_div_is_ordered(abs_int(q as int), DEBRIS_SPEED * ax, ax as int);
                vstd::arithmetic::div_mod::lemma_div_multiples_vanish(DEBRIS_SPEED as int, ax as int);
                assert(abs_int(q as int) <= DEBRIS_SPEED * ax) by (nonlinear_arith)
                    requires
                        q == DEBRIS_SPEED * ey,
                        ay <= ax,
                        ay == abs_int(ey as int),
                ;
                assert(DEBRIS_SPEED * ax == ax * DEBRIS_SPEED) by (nonlinear_arith);
            }
        }
        (vx, vy)
    } else {
        let vy = if ey > 0 {
            DEBRIS_SPEED
        } else {
            -DEBRIS_SPEED
        };
        let vx = crate::geometry::div_trunc_i64(DEBRIS_SPEED * ex, ay);
        proof {
            let q = DEBRIS_SPEED * ex;
            crate::geometry::lemma_div_trunc_bounds(q as int, ay as int);
            if ex >= 0 {
                assert(vx * ex >= 0) by (nonlinear_arith)
                    requires
                        vx >= 0,
                        ex >= 0,
                ;
            } else {
                assert(vx * ex >= 0) by (nonlinear_arith)
                    requires
                        vx <= 0,
                        ex < 0,
                ;
            }
            assert(vy * ey > 0) by (nonlinear_arith)
                requires
                    ey > 0 ==> vy == DEBRIS_SPEED,
                    ey <= 0 ==> vy == -DEBRIS_SPEED,
                    ey != 0,
            ;
            assert(-DEBRIS_SPEED <= vx <= DEBRIS_SPEED) by {
                vstd::arithmetic::div_mod::lemma_div_is_ordered(abs_int(q as int), DEBRIS_SPEED * ay, ay as int);
                vstd::arithmetic::div_mod::lemma_div_multiples_vanish(DEBRIS_SPEED as int, ay as int);
                assert(abs_int(q as int) <= DEBRIS_SPEED * ay) by (nonlinear_arith)
                    requires
                        q == DEBRIS_SPEED * ex,
                        ax < ay,
                        ax == abs_int(ex as int),
                ;
                assert(DEBRIS_SPEED * ay == ay * DEBRIS_SPEED) by (nonlinear_arith);
            }
        }
        (vx, vy)
    }
}

/// What the particle step does with a particle.
#[derive(PartialEq, Eq, Structural, Debug, Clone, Copy)]
pub enum ParticleFate {
    /// It fell below the world and leaves the scene.
    Despawn,
    /// It rests on the ground and turns into terrain.
    Settle,
    /// It stays a particle.
    Keep,
}

/// The fate of particle `s`: dropped below `DESPAWN_DEPTH`, else turned into
/// terrain when grounded and resting longer than `SETTLE_TIME`, else kept.
pub fn particle_fate(s: &Sprite) -> (r: ParticleFate)
    ensures
        r == fate_of(*s),
{
    if s.y > DESPAWN_DEPTH * SUBPIXEL {
        ParticleFate::Despawn
    } else if s.ground_contact && s.sleep_timer > SETTLE_TIME {
        ParticleFate::Settle
    } else {
        ParticleFate::Keep
    }
}

/// The pixel `(px, py)` lies within `CULL_DISTANCE * camera_scale` pixels of
/// the camera at `(cam_x, cam_y)`.
pub open spec fn within_reach(px: int, py: int, cam_x: int, cam_y: int, camera_scale: int) -> bool {
    let r = CULL_DISTANCE * camera_scale;
    (px - cam_x) * (px - cam_x) + (py - cam_y) * (py - cam_y) <= r * r
}

/// Whether an entity at pixel `(px, py)` is close enough to the camera to move.
pub fn in_reach(px: i32, py: i32, cam_x: i32, cam_y: i32, camera_scale: u32) -> (r: bool)
    requires
        camera_scale <= SCALE_LIMIT,
    ensures
        r == within_reach(px as int, py as int, cam_x as int, cam_y as int, camera_scale as int),
{
    let reach = CULL_DISTANCE * camera_scale as i64;
    let ex = px as i64 - cam_x as i64;
    let ey = py as i64 - cam_y as i64;
    if ex < -0x2000_0000 || ex > 0x2000_0000 || ey < -0x2000_0000 || ey > 0x2000_0000 {
        proof {
            assert(reach * reach <= CULL_DISTANCE * SCALE_LIMIT * CULL_DISTANCE * SCALE_LIMIT) by (nonlinear_arith)
                requires
                    0 <= reach <= CULL_DISTANCE * SCALE_LIMIT,
            ;
            assert(ex * ex + ey * ey > 0x2000_0000 * 0x2000_0000) by (nonlinear_arith)
                requires
                    ex < -0x2000_0000 || ex > 0x2000_0000 || ey < -0x2000_0000 || ey > 0x2000_0000,
            ;
        }
        return false;
    }
    proof {
        assert(ex * ex <= 0x0400_0000_0000_0000 && ey * ey <= 0x0400_0000_0000_0000) by (nonlinear_arith)
            requires
                -0x2000_0000 <= ex <= 0x2000_0000,
                -0x2000_0000 <= ey <= 0x2000_0000,
        ;
        assert(ex * ex >= 0 && ey * ey >= 0) by (nonlinear_arith);
        assert(0 <= reach * reach <= CULL_DISTANCE * SCALE_LIMIT * CULL_DISTANCE * SCALE_LIMIT) by (nonlinear_arith)
            requires
                0 <= reach <= CULL_DISTANCE * SCALE_LIMIT,
        ;
    }
    ex * ex + ey * ey <= reach * reach
}

impl Scene {
    pub open spec fn wf(&self) -> bool {
        &&& self.collision_map.wf()
        &&& self.rubble_map.wf()
        &&& self.foreground_map.wf()
        &&& self.background_map.wf()
        &&& self.tile_queue.wf()
        &&& forall|i: int|
            0 <= i < self.sprites@.len() && #[trigger] self.sprites@[i] is Some
                ==> self.sprites@[i]->Some_0.wf()
    }

    /// An empty scene over the world rectangle.
    pub fn new() -> (s: Self)
        ensures
            s.wf(),
            s.sprites@.len() == 0,
            s.potions@.len() == 0,
            s.characters@.len() == 0,
            s.particles@.len() == 0,
            s.collectables@.len() == 0,
            s.collected@.len() == 0,
            is_world_map(s.collision_map),
            is_world_map(s.rubble_map),
            is_world_map(s.foreground_map),
            is_world_map(s.background_map),
            s.tile_queue@.len() == 0,
            s.score == 0,
            !s.done,
            !s.end_sequence_triggered,
            !s.final_potion_triggered,
    {
        Scene {
            sprites: Vec::new(),
            potions: Vec::new(),
            characters: Vec::new(),
            particles: Vec::new(),
            collectables: Vec::new(),
            collected: Vec::new(),
            collision_map: world_map(),
            rubble_map: world_map(),
            foreground_map: world_map(),
            background_map: world_map(),
            tile_queue: TileQueue::new(),
            score: 0,
            final_potion_triggered: false,
            end_sequence_triggered: false,
            done: false,
        }
    }

    /// Adds an entity and returns its id.
    pub fn add_sprite(&mut self, sprite: Sprite) -> (id: usize)
        requires
            old(self).wf(),
            sprite.wf(),
        ensures
            final(self).wf(),
            id == old(self).sprites@.len(),
            final(self).sprites@ == old(self).sprites@.push(Some(sprite)),
            *final(self) == (Scene { sprites: final(self).sprites, ..*old(self) }),
    {
        let id = self.sprites.len();
        self.sprites.push(Some(sprite));
        proof {
            assert forall|i: int|
                0 <= i < self.sprites@.len() && #[trigger] self.sprites@[i] is Some
                    implies self.sprites@[i]->Some_0.wf() by {
                if i < id {
                    assert(self.sprites@[i] == old(self).sprites@[i]);
                }
            }
        }
        id
    }

    pub fn add_collectable(&mut self, sprite: Sprite) -> (id: usize)
        requires
            old(self).wf(),
            sprite.wf(),
        ensures
            final(self).wf(),
            id == old(self).sprites@.len(),
            final(self).sprites@ == old(self).sprites@.push(Some(sprite)),
            final(self).collectables@ == old(self).collectables@.push(id),
    {
        let id = self.add_sprite(sprite);
        self.collectables.push(id);
        id
    }

    pub fn add_potion(&mut self, sprite: Sprite, potion_type: PotionType, start_end: bool) -> (id:
        usize)
        requires
            old(self).wf(),
            sprite.wf(),
        ensures
            final(self).wf(),
            id == old(self).sprites@.len(),
            final(self).sprites@ == old(self).sprites@.push(Some(sprite)),
            final(self).potions@ == old(self).potions@.push((id, potion_type, start_end)),
    {
        let id = self.add_sprite(sprite);
        self.potions.push((id, potion_type, start_end));
        id
    }

    pub fn add_particle(&mut self, sprite: Sprite) -> (id: usize)
        requires
            old(self).wf(),
            sprite.wf(),
        ensures
            final(self).wf(),
            id == old(self).sprites@.len(),
            final(self).sprites@ == old(self).sprites@.push(Some(sprite)),
            final(self).particles@ == old(self).particles@.push(id),
            *final(self) == (Scene {
                sprites: final(self).sprites,
                particles: final(self).particles,
                ..*old(self)
            }),
    {
        let id = self.add_sprite(sprite);
        self.particles.push(id);
        id
    }

    pub fn add_character(&mut self, sprite: Sprite) -> (id: usize)
        requires
            old(self).wf(),
            sprite.wf(),
        ensures
            final(self).wf(),
            id == old(self).sprites@.len(),
            final(self).sprites@ == old(self).sprites@.push(Some(sprite)),
            final(self).characters@ == old(self).characters@.push(id),
    {
        let id = self.add_sprite(sprite);
        self.characters.push(id);
        id
    }
}

/// Some solid cell among the first `n` of `c`, placed at `(px, py)`,
/// overlaps the tile `(tx, ty)`.
pub open spec fn collider_tile_upto(
    c: Seq<bool>,
    n: int,
    px: int,
    py: int,
    xs: int,
    ys: int,
    tx: int,
    ty: int,
) -> bool
    decreases n,
{
    n > 0 && (collider_tile_upto(c, n - 1, px, py, xs, ys, tx, ty) || (c[n - 1] && tile_meets_rect(
        tx,
        ty,
        px + crate::sprite::cell_col(n - 1) * xs,
        py + crate::sprite::cell_row(n - 1) * ys,
        xs,
        ys,
    )))
}

/// Queues on `layer` every tile that a solid cell of `c`, placed at `(px, py)`, overlaps.
pub fn mark_collider_tiles(
    q: &mut TileQueue,
    layer: u32,
    c: &Vec<bool>,
    px: i32,
    py: i32,
    xs: u32,
    ys: u32,
)
    requires
        old(q).wf(),
        c@.len() == CELLS,
        placement_ok(px as int, py as int, xs as int, ys as int),
    ensures
        final(q).wf(),
        final(q)@.len() >= old(q)@.len(),
        final(q)@.subrange(0, old(q)@.len() as int) == old(q)@,
        forall|t: (u32, i32, i32)|
            #[trigger] final(q)@.contains(t) <==> (old(q)@.contains(t) || (t.0 == layer
                && collider_tile_upto(c@, CELLS as int, px as int, py as int, xs as int, ys as int, t.1 as int, t.2 as int))),
{
    let ghost q0 = q@;
    let mut i: usize = 0;
    while i < CELLS
        invariant
            i <= CELLS,
            c@.len() == CELLS,
            placement_ok(px as int, py as int, xs as int, ys as int),
            q.wf(),
            q@.len() >= q0.len(),
            q@.subrange(0, q0.len() as int) == q0,
            forall|t: (u32, i32, i32)|
                #[trigger] q@.contains(t) <==> (q0.contains(t) || (t.0 == layer && collider_tile_upto(
                    c@,
                    i as int,
                    px as int,
                    py as int,
                    xs as int,
                    ys as int,
                    t.1 as int,
                    t.2 as int,
                ))),
        decreases CELLS - i,
    {
        if c[i] {
            let (rx, ry) = crate::sprite::cell_origin(i, px, py, xs, ys);
            let ghost before = q@;
            q.mark_rect(layer, rx, ry, xs, ys);
            proof {
                assert(q@.subrange(0, q0.len() as int) =~= before.subrange(0, q0.len() as int));
            }
        }
        i = i + 1;
    }
}

/// Logical offset of cell `k` of the carve pattern: sixteen columns by
/// sixteen rows starting one row above the entity, or, at the largest
/// scale, sixteen columns by 176 rows reaching 160 rows above it.
pub open spec fn carve_cell(k: int, tall: bool) -> (int, int) {
    if tall {
        (k % 16, k / 16 - 160)
    } else {
        (k / 16, k % 16 - 1)
    }
}

/// Number of cells of the carve pattern.
pub open spec fn carve_len(tall: bool) -> int {
    if tall {
        2816int
    } else {
        256int
    }
}

/// Cell `k` of the carve pattern lies strictly within half the larger scaled
/// side of the entity's centre.
pub open spec fn in_disk(k: int, tall: bool, xs: int, ys: int) -> bool {
    let (dx, dy) = carve_cell(k, tall);
    let ex = (dx - 8) * xs;
    let ey = (dy - 8) * ys;
    let r = 8 * if xs > ys {
        xs
    } else {
        ys
    };
    ex * ex + ey * ey < r * r
}

/// The pixel `(qx, qy)` lies in one of the first `n` pattern cells inside the disk.
pub open spec fn carved_upto(
    n: int,
    tall: bool,
    px: int,
    py: int,
    xs: int,
    ys: int,
    qx: int,
    qy: int,
) -> bool
    decreases n,
{
    n > 0 && (carved_upto(n - 1, tall, px, py, xs, ys, qx, qy) || (in_disk(n - 1, tall, xs, ys)
        && in_rect(
        qx,
        qy,
        px + carve_cell(n - 1, tall).0 * xs,
        py + carve_cell(n - 1, tall).1 * ys,
        xs,
        ys,
    )))
}

/// A debris entity: one solid cell, thrown out of a carve.
pub open spec fn is_debris(s: Sprite) -> bool {
    &&& s.wf()
    &&& s.collider@[0]
    &&& forall|i: int| 1 <= i < CELLS ==> !s.collider@[i]
}

/// A collider with only its top-left cell solid.
pub fn single_cell_collider() -> (c: Vec<bool>)
    ensures
        c@.len() == CELLS,
        c@[0],
        forall|i: int| 1 <= i < CELLS ==> !c@[i],
{
    let mut c: Vec<bool> = Vec::new();
    c.push(true);
    let mut i: usize = 1;
    while i < CELLS
        invariant
            1 <= i <= CELLS,
            c@.len() == i,
            c@[0],
            forall|j: int| 1 <= j < i ==> !c@[j],
        decreases CELLS - i,
    {
        c.push(false);
        i = i + 1;
    }
    c
}

impl Sprite {
    /// A resting entity with gravity, at the fixed-point position `(x, y)`.
    pub fn from_collider(collider: Vec<bool>, x: i64, y: i64, x_scale: u32, y_scale: u32) -> (s:
        Sprite)
        requires
            collider@.len() == CELLS,
            coord_ok(x as int),
            coord_ok(y as int),
            1 <= x_scale <= SCALE_LIMIT,
            1 <= y_scale <= SCALE_LIMIT,
        ensures
            s.wf(),
            s.collider == collider,
            s.x == x && s.y == y,
            s.x_scale == x_scale && s.y_scale == y_scale,
            s.vx == 0 && s.vy == 0,
            !s.is_player && s.gravity && !s.ground_contact && !s.jumping,
            s.potion_timer is None,
            s.pending_potions@.len() == 0,
            s.sleep_timer == 0,
    {
        Sprite {
            is_player: false,
            collider,
            x,
            y,
            x_scale,
            y_scale,
            vx: 0,
            vy: 0,
            ground_contact: false,
            jumping: false,
            potion_timer: None,
            pending_potions: Vec::new(),
            sleep_timer: 0,
            gravity: true,
        }
    }
}

/// Every entry of the queue `q0` is still queued in `q1`, at the same place.
pub open spec fn queue_kept(q0: Seq<(u32, i32, i32)>, q1: Seq<(u32, i32, i32)>) -> bool {
    q1.len() >= q0.len() && q1.subrange(0, q0.len() as int) == q0
}

proof fn lemma_queue_kept_trans(
    a: Seq<(u32, i32, i32)>,
    b: Seq<(u32, i32, i32)>,
    c: Seq<(u32, i32, i32)>,
)
    requires
        queue_kept(a, b),
        queue_kept(b, c),
    ensures
        queue_kept(a, c),
{
    assert(c.subrange(0, a.len() as int) =~= c.subrange(0, b.len() as int).subrange(0, a.len() as int));
    assert(b.subrange(0, a.len() as int) =~= a);
}

/// The map `t1` is `t0` with the solid pixels of `s` added inside its domain.
pub open spec fn added_sprite(t0: CollisionTree, t1: CollisionTree, s: Sprite) -> bool {
    &&& t1.same_domain(t0)
    &&& forall|qx: int, qy: int| #[trigger]
        t1.has(qx, qy) == (t0.has(qx, qy) || (t0.in_domain(qx, qy) && covers(
            s.collider@,
            pixel_of(s.x as int),
            pixel_of(s.y as int),
            s.x_scale as int,
            s.y_scale as int,
            qx,
            qy,
        )))
}

/// The queue `q1` is `q0` with every `layer` tile that the box of `s` overlaps.
pub open spec fn queued_box(q0: Seq<(u32, i32, i32)>, q1: Seq<(u32, i32, i32)>, layer: u32, s: Sprite) -> bool {
    forall|t: (u32, i32, i32)|
        #[trigger] q1.contains(t) <==> (q0.contains(t) || (t.0 == layer && tile_meets_rect(
            t.1 as int,
            t.2 as int,
            pixel_of(s.x as int),
            pixel_of(s.y as int),
            SPRITE_WIDTH * s.x_scale,
            SPRITE_WIDTH * s.y_scale,
        )))
}

impl CollisionTree {
    /// Marks solid every pixel of the domain that a solid cell of `s` covers.
    pub fn add_sprite(&mut self, s: &Sprite)
        requires
            old(self).wf(),
            s.wf(),
        ensures
            final(self).wf(),
            added_sprite(*old(self), *final(self), *s),
    {
        let (px, py) = s.pixel_pos();
        self.add_collider(&s.collider, px, py, s.x_scale, s.y_scale);
    }

    /// Makes free every pixel that a solid cell of `s` covers.
    pub fn clear_sprite(&mut self, s: &Sprite)
        requires
            old(self).wf(),
            s.wf(),
        ensures
            final(self).wf(),
            final(self).same_domain(*old(self)),
            forall|qx: int, qy: int| #[trigger]
                final(self).has(qx, qy) == (old(self).has(qx, qy) && !covers(
                    s.collider@,
                    pixel_of(s.x as int),
                    pixel_of(s.y as int),
                    s.x_scale as int,
                    s.y_scale as int,
                    qx,
                    qy,
                )),
    {
        let (px, py) = s.pixel_pos();
        self.clear_collider(&s.collider, px, py, s.x_scale, s.y_scale);
    }
}

impl Scene {
    /// Indexes the solid cells of `s` in the terrain map and queues every
    /// terrain tile its box overlaps.
    pub fn add_terrain(&mut self, s: &Sprite)
        requires
            old(self).wf(),
            s.wf(),
        ensures
            final(self).wf(),
            added_sprite(old(self).collision_map, final(self).collision_map, *s),
            queued_box(old(self).tile_queue@, final(self).tile_queue@, LAYER_TERRAIN, *s),
            *final(self) == (Scene {
                collision_map: final(self).collision_map,
                tile_queue: final(self).tile_queue,
                ..*old(self)
            }),
    {
        let (px, py) = s.pixel_pos();
        self.collision_map.add_sprite(s);
        self.tile_queue.mark_rect(LAYER_TERRAIN, px, py, 16 * s.x_scale, 16 * s.y_scale);
    }

    /// Indexes the solid cells of `s` in the foreground map and queues every
    /// foreground tile its box overlaps.
    pub fn add_foreground(&mut self, s: &Sprite)
        requires
            old(self).wf(),
            s.wf(),
        ensures
            final(self).wf(),
            added_sprite(old(self).foreground_map, final(self).foreground_map, *s),
            queued_box(old(self).tile_queue@, final(self).tile_queue@, LAYER_FOREGROUND, *s),
            *final(self) == (Scene {
                foreground_map: final(self).foreground_map,
                tile_queue: final(self).tile_queue,
                ..*old(self)
            }),
    {
        let (px, py) = s.pixel_pos();
        self.foreground_map.add_sprite(s);
        self.tile_queue.mark_rect(LAYER_FOREGROUND, px, py, 16 * s.x_scale, 16 * s.y_scale);
    }

    /// Indexes the solid cells of `s` in the background map and queues every
    /// background tile its box overlaps.
    pub fn add_background(&mut self, s: &Sprite)
        requires
            old(self).wf(),
            s.wf(),
        ensures
            final(self).wf(),
            added_sprite(old(self).background_map, final(self).background_map, *s),
            queued_box(old(self).tile_queue@, final(self).tile_queue@, LAYER_BACKGROUND, *s),
            *final(self) == (Scene {
                background_map: final(self).background_map,
                tile_queue: final(self).tile_queue,
                ..*old(self)
            }),
    {
        let (px, py) = s.pixel_pos();
        self.background_map.add_sprite(s);
        self.tile_queue.mark_rect(LAYER_BACKGROUND, px, py, 16 * s.x_scale, 16 * s.y_scale);
    }

    /// Frees in the terrain map the pixels of the solid cells of `s`.
    pub fn clear_terrain(&mut self, s: &Sprite)
        requires
            old(self).wf(),
            s.wf(),
        ensures
            final(self).wf(),
            final(self).collision_map.same_domain(old(self).collision_map),
            forall|qx: int, qy: int| #[trigger]
                final(self).collision_map.has(qx, qy) == (old(self).collision_map.has(qx, qy)
                    && !covers(
                    s.collider@,
                    pixel_of(s.x as int),
                    pixel_of(s.y as int),
                    s.x_scale as int,
                    s.y_scale as int,
                    qx,
                    qy,
                )),
            final(self).tile_queue == old(self).tile_queue,
            final(self).sprites == old(self).sprites,
    {
        self.collision_map.clear_sprite(s);
    }

    /// Turns a resting particle into terrain: its solid pixels become solid in
    /// both the terrain and the rubble map, and the terrain tiles they overlap
    /// are queued.
    pub fn settle(&mut self, s: &Sprite)
        requires
            old(self).wf(),
            s.wf(),
        ensures
            final(self).wf(),
            added_sprite(old(self).collision_map, final(self).collision_map, *s),
            added_sprite(old(self).rubble_map, final(self).rubble_map, *s),
            forall|t: (u32, i32, i32)|
                #[trigger] final(self).tile_queue@.contains(t) <==> (old(self).tile_queue@.contains(t)
                    || (t.0 == LAYER_TERRAIN && collider_tile_upto(
                    s.collider@,
                    CELLS as int,
                    pixel_of(s.x as int),
                    pixel_of(s.y as int),
                    s.x_scale as int,
                    s.y_scale as int,
                    t.1 as int,
                    t.2 as int,
                ))),
            queue_kept(old(self).tile_queue@, final(self).tile_queue@),
            *final(self) == (Scene {
                collision_map: final(self).collision_map,
                rubble_map: final(self).rubble_map,
                tile_queue: final(self).tile_queue,
                ..*old(self)
            }),
    {
        let (px, py) = s.pixel_pos();
        self.collision_map.add_sprite(s);
        self.rubble_map.add_sprite(s);
        mark_collider_tiles(
            &mut self.tile_queue,
            LAYER_TERRAIN,
            &s.collider,
            px,
            py,
            s.x_scale,
            s.y_scale,
        );
    }
}

/// Entities whose growth carves terrain keep their pixel position within this distance of the origin.
pub const CARVE_LIMIT: i32 = 134217728;

/// `d` was thrown out of a carve centred on pixel `(cx, cy)`: it moves away from it.
pub open spec fn thrown_from(d: Sprite, cx: int, cy: int) -> bool {
    points_away(d.vx as int, d.vy as int, (d.x as int) / (SUBPIXEL as int) - cx, (d.y as int) / (SUBPIXEL as int) - cy)
}

/// Number of cells among the first `n` of the carve pattern, placed for an
/// entity at `(px, py)` with scales `(xs, ys)`, that lie in the disk and hold
/// a solid pixel of `t`.
pub open spec fn solid_cells_upto(
    t: CollisionTree,
    n: int,
    tall: bool,
    px: int,
    py: int,
    xs: int,
    ys: int,
) -> nat
    decreases n,
{
    if n <= 0 {
        0
    } else {
        solid_cells_upto(t, n - 1, tall, px, py, xs, ys) + if in_disk(n - 1, tall, xs, ys)
            && t.rect_solid(
            px + carve_cell(n - 1, tall).0 * xs,
            py + carve_cell(n - 1, tall).1 * ys,
            xs,
            ys,
        ) {
            1nat
        } else {
            0nat
        }
    }
}

/// The tile `(tx, ty)` overlaps one of the first `n` cells of the carve
/// pattern that lie in the disk and hold a solid pixel of `t`.
pub open spec fn cleared_tile_upto(
    t: CollisionTree,
    n: int,
    tall: bool,
    px: int,
    py: int,
    xs: int,
    ys: int,
    tx: int,
    ty: int,
) -> bool
    decreases n,
{
    n > 0 && (cleared_tile_upto(t, n - 1, tall, px, py, xs, ys, tx, ty) || (in_disk(n - 1, tall, xs, ys)
        && t.rect_solid(
        px + carve_cell(n - 1, tall).0 * xs,
        py + carve_cell(n - 1, tall).1 * ys,
        xs,
        ys,
    ) && tile_meets_rect(
        tx,
        ty,
        px + carve_cell(n - 1, tall).0 * xs,
        py + carve_cell(n - 1, tall).1 * ys,
        xs,
        ys,
    )))
}

/// Room left for new particles when `existing` are alive.
pub open spec fn particle_room(existing: int) -> int {
    if existing < MAX_PARTICLES {
        MAX_PARTICLES - existing
    } else {
        0
    }
}

pub open spec fn min_nat(a: int, b: int) -> int {
    if a < b {
        a
    } else {
        b
    }
}

proof fn lemma_carve_cell_injective(j: int, k: int, tall: bool)
    requires
        0 <= j < carve_len(tall),
        0 <= k < carve_len(tall),
        carve_cell(j, tall) == carve_cell(k, tall),
    ensures
        j == k,
{
    vstd::arithmetic::div_mod::lemma_fundamental_div_mod(j, 16);
    vstd::arithmetic::div_mod::lemma_fundamental_div_mod(k, 16);
}

proof fn lemma_axis_cells_apart(a: int, b: int, s: int, o: int, q: int)
    requires
        s > 0,
        o + a * s <= q < o + a * s + s,
        o + b * s <= q < o + b * s + s,
    ensures
        a == b,
{
    if a < b {
        assert(a * s + s <= b * s) by (nonlinear_arith)
            requires
                a + 1 <= b,
                s > 0,
        ;
    } else if b < a {
        assert(b * s + s <= a * s) by (nonlinear_arith)
            requires
                b + 1 <= a,
                s > 0,
        ;
    }
}

/// A pixel in pattern cell `k` lies in no earlier pattern cell.
proof fn lemma_not_carved_before(
    n: int,
    k: int,
    tall: bool,
    px: int,
    py: int,
    xs: int,
    ys: int,
    qx: int,
    qy: int,
)
    requires
        0 <= n <= k < carve_len(tall),
        xs > 0,
        ys > 0,
        in_rect(qx, qy, px + carve_cell(k, tall).0 * xs, py + carve_cell(k, tall).1 * ys, xs, ys),
    ensures
        !carved_upto(n, tall, px, py, xs, ys, qx, qy),
    decreases n,
{
    if n > 0 {
        lemma_not_carved_before(n - 1, k, tall, px, py, xs, ys, qx, qy);
        let j = n - 1;
        if in_rect(qx, qy, px + carve_cell(j, tall).0 * xs, py + carve_cell(j, tall).1 * ys, xs, ys) {
            lemma_axis_cells_apart(carve_cell(j, tall).0, carve_cell(k, tall).0, xs, px, qx);
            lemma_axis_cells_apart(carve_cell(j, tall).1, carve_cell(k, tall).1, ys, py, qy);
            lemma_carve_cell_injective(j, k, tall);
        }
    }
}

impl Scene {
    /// Carves around an entity that grew, with its top-left pixel at
    /// `(px, py)` and scales `(xs, ys)`: every cell of the carve pattern that
    /// lies in the disk is freed in the foreground and terrain maps, the
    /// tiles of the freed cells are queued, and each cell that held terrain
    /// throws one debris entity outward while fewer than `MAX_PARTICLES`
    /// particles exist.
    pub fn carve(&mut self, px: i32, py: i32, xs: u32, ys: u32, debris: &mut Vec<Sprite>)
        requires
            old(self).wf(),
            1 <= xs <= MAX_SCALE,
            1 <= ys <= MAX_SCALE,
            -CARVE_LIMIT <= px <= CARVE_LIMIT,
            -CARVE_LIMIT <= py <= CARVE_LIMIT,
            forall|i: int| 0 <= i < old(debris)@.len() ==> is_debris(#[trigger] old(debris)@[i]),
        ensures
            final(self).wf(),
            final(self).collision_map.same_domain(old(self).collision_map),
            final(self).foreground_map.same_domain(old(self).foreground_map),
            forall|qx: int, qy: int| #[trigger]
                final(self).collision_map.has(qx, qy) == (old(self).collision_map.has(qx, qy)
                    && !carved_upto(carve_len(ys == MAX_SCALE), ys == MAX_SCALE, px as int, py as int, xs as int, ys as int, qx, qy)),
            forall|qx: int, qy: int| #[trigger]
                final(self).foreground_map.has(qx, qy) == (old(self).foreground_map.has(qx, qy)
                    && !carved_upto(carve_len(ys == MAX_SCALE), ys == MAX_SCALE, px as int, py as int, xs as int, ys as int, qx, qy)),
            final(debris)@.len() >= old(debris)@.len(),
            final(debris)@.subrange(0, old(debris)@.len() as int) == old(debris)@,
            forall|i: int| 0 <= i < final(debris)@.len() ==> is_debris(#[trigger] final(debris)@[i]),
            forall|i: int|
                old(debris)@.len() <= i < final(debris)@.len() ==> thrown_from(
                    #[trigger] final(debris)@[i],
                    px + 8 * xs,
                    py + 8 * ys,
                ),
            final(debris)@.len() == old(debris)@.len() + min_nat(
                solid_cells_upto(
                    old(self).collision_map,
                    carve_len(ys == MAX_SCALE),
                    ys == MAX_SCALE,
                    px as int,
                    py as int,
                    xs as int,
                    ys as int,
                ) as int,
                particle_room((old(debris)@.len() + old(self).particles@.len()) as int),
            ),
            final(self).tile_queue@.subrange(0, old(self).tile_queue@.len() as int) == old(self).tile_queue@,
            final(self).tile_queue@.len() >= old(self).tile_queue@.len(),
            forall|t: (u32, i32, i32)|
                #[trigger] final(self).tile_queue@.contains(t) <==> (old(self).tile_queue@.contains(t)
                    || (t.0 == LAYER_TERRAIN && cleared_tile_upto(
                    old(self).collision_map,
                    carve_len(ys == MAX_SCALE),
                    ys == MAX_SCALE,
                    px as int,
                    py as int,
                    xs as int,
                    ys as int,
                    t.1 as int,
                    t.2 as int,
                )) || (t.0 == LAYER_FOREGROUND && cleared_tile_upto(
                    old(self).foreground_map,
                    carve_len(ys == MAX_SCALE),
                    ys == MAX_SCALE,
                    px as int,
                    py as int,
                    xs as int,
                    ys as int,
                    t.1 as int,
                    t.2 as int,
                ))),
            final(self).sprites == old(self).sprites,
            final(self).particles == old(self).particles,
            final(self).characters == old(self).characters,
            final(self).potions == old(self).potions,
            final(self).collectables == old(self).collectables,
            final(self).rubble_map == old(self).rubble_map,
            final(self).background_map == old(self).background_map,
            final(self).score == old(self).score,
            final(self).done == old(self).done,
            final(self).end_sequence_triggered == old(self).end_sequence_triggered,
            final(self).final_potion_triggered == old(self).final_potion_triggered,
            *final(self) == (Scene {
                collision_map: final(self).collision_map,
                foreground_map: final(self).foreground_map,
                tile_queue: final(self).tile_queue,
                ..*old(self)
            }),
            carved(
                *old(self),
                *final(self),
                old(debris)@,
                final(debris)@,
                px as int,
                py as int,
                xs as int,
                ys as int,
            ),
    {
        let tall = ys == MAX_SCALE;
        let n: usize = if tall {
            2816
        } else {
            256
        };
        let r: i64 = 8 * (if xs > ys {
            xs
        } else {
            ys
        }) as i64;
        let ghost s0 = *self;
        let ghost d0 = debris@;
        let mut k: usize = 0;
        while k < n
            invariant
                s0.wf(),
                self.wf(),
                n == carve_len(tall),
                tall == (ys == MAX_SCALE),
                1 <= xs <= MAX_SCALE,
                1 <= ys <= MAX_SCALE,
                -CARVE_LIMIT <= px <= CARVE_LIMIT,
                -CARVE_LIMIT <= py <= CARVE_LIMIT,
                r == 8 * (if xs > ys { xs } else { ys }),
                k <= n,
                self.collision_map.same_domain(s0.collision_map),
                self.foreground_map.same_domain(s0.foreground_map),
                forall|qx: int, qy: int| #[trigger]
                    self.collision_map.has(qx, qy) == (s0.collision_map.has(qx, qy)
                        && !carved_upto(k as int, tall, px as int, py as int, xs as int, ys as int, qx, qy)),
                forall|qx: int, qy: int| #[trigger]
                    self.foreground_map.has(qx, qy) == (s0.foreground_map.has(qx, qy)
                        && !carved_upto(k as int, tall, px as int, py as int, xs as int, ys as int, qx, qy)),
                debris@.len() >= d0.len(),
                debris@.subrange(0, d0.len() as int) == d0,
                forall|i: int| 0 <= i < debris@.len() ==> is_debris(#[trigger] debris@[i]),
                forall|i: int|
                    d0.len() <= i < debris@.len() ==> thrown_from(
                        #[trigger] debris@[i],
                        px + 8 * xs,
                        py + 8 * ys,
                    ),
                debris@.len() == d0.len() + min_nat(
                    solid_cells_upto(s0.collision_map, k as int, tall, px as int, py as int, xs as int, ys as int) as int,
                    particle_room((d0.len() + s0.particles@.len()) as int),
                ),
                self.tile_queue@.subrange(0, s0.tile_queue@.len() as int) == s0.tile_queue@,
                self.tile_queue@.len() >= s0.tile_queue@.len(),
                forall|t: (u32, i32, i32)|
                    #[trigger] self.tile_queue@.contains(t) <==> (s0.tile_queue@.contains(t) || (t.0
                        == LAYER_TERRAIN && cleared_tile_upto(
                        s0.collision_map,
                        k as int,
                        tall,
                        px as int,
                        py as int,
                        xs as int,
                        ys as int,
                        t.1 as int,
                        t.2 as int,
                    )) || (t.0 == LAYER_FOREGROUND && cleared_tile_upto(
                        s0.foreground_map,
                        k as int,
                        tall,
                        px as int,
                        py as int,
                        xs as int,
                        ys as int,
                        t.1 as int,
                        t.2 as int,
                    ))),
                self.sprites == s0.sprites,
                self.particles == s0.particles,
                self.characters == s0.characters,
                self.potions == s0.potions,
                self.collectables == s0.collectables,
                self.rubble_map == s0.rubble_map,
                self.background_map == s0.background_map,
                self.score == s0.score,
                *self == (Scene {
                    collision_map: self.collision_map,
                    foreground_map: self.foreground_map,
                    tile_queue: self.tile_queue,
                    ..s0
                }),
                self.done == s0.done,
                self.end_sequence_triggered == s0.end_sequence_triggered,
                self.final_potion_triggered == s0.final_potion_triggered,
            decreases n - k,
        {
            let (dx, dy): (i64, i64) = if tall {
                ((k % 16) as i64, (k / 16) as i64 - 160)
            } else {
                ((k / 16) as i64, (k % 16) as i64 - 1)
            };
            proof {
                assert((dx as int, dy as int) == carve_cell(k as int, tall));
            }
            proof {
                assert(-168 * 180 <= (dx - 8) * xs <= 168 * 180 && -168 * 180 <= (dy - 8) * ys <= 168 * 180) by (nonlinear_arith)
                    requires
                        -168 <= dx - 8 <= 8,
                        -168 <= dy - 8 <= 8,
                        1 <= xs <= 180,
                        1 <= ys <= 180,
                ;
                assert(-160 * 180 <= dx * xs <= 16 * 180 && -160 * 180 <= dy * ys <= 16 * 180) by (nonlinear_arith)
                    requires
                        -160 <= dx <= 16,
                        -160 <= dy <= 16,
                        1 <= xs <= 180,
                        1 <= ys <= 180,
                ;
            }
            let ex = (dx - 8) * xs as i64;
            let ey = (dy - 8) * ys as i64;
            proof {
                assert(0 <= ex * ex <= 168 * 180 * 168 * 180 && 0 <= ey * ey <= 168 * 180 * 168 * 180) by (nonlinear_arith)
                    requires
                        -168 * 180 <= ex <= 168 * 180,
                        -168 * 180 <= ey <= 168 * 180,
                ;
                assert(0 <= r * r <= 1440 * 1440) by (nonlinear_arith)
                    requires
                        0 <= r <= 1440,
                ;
            }
            if ex * ex + ey * ey < r * r {
                let x = px + (dx * xs as i64) as i32;
                let y = py + (dy * ys as i64) as i32;
                proof {
                    assert(x == px + carve_cell(k as int, tall).0 * xs);
                    assert(y == py + carve_cell(k as int, tall).1 * ys);
                }
                proof {
                    let cx = px + carve_cell(k as int, tall).0 * xs;
                    let cy = py + carve_cell(k as int, tall).1 * ys;
                    assert forall|qx: int, qy: int| in_rect(qx, qy, cx, cy, xs as int, ys as int) implies
                        #[trigger] self.foreground_map.has(qx, qy) == s0.foreground_map.has(qx, qy) by {
                        lemma_not_carved_before(k as int, k as int, tall, px as int, py as int, xs as int, ys as int, qx, qy);
                    }
                    if s0.foreground_map.rect_solid(cx, cy, xs as int, ys as int) {
                        let (qx, qy) = choose|qx: int, qy: int|
                            in_rect(qx, qy, cx, cy, xs as int, ys as int) && #[trigger] s0.foreground_map.has(qx, qy);
                        assert(self.foreground_map.has(qx, qy));
                    }
                }
                let (_, fg) = self.foreground_map.remove_rect(x, y, xs, ys);
                if fg > 0 {
                    let ghost before = self.tile_queue@;
                    self.tile_queue.mark_rect(LAYER_FOREGROUND, x, y, xs, ys);
                    proof {
                        assert(self.tile_queue@.subrange(0, s0.tile_queue@.len() as int)
                            =~= before.subrange(0, s0.tile_queue@.len() as int));
                    }
                }
                proof {
                    let cx = px + carve_cell(k as int, tall).0 * xs;
                    let cy = py + carve_cell(k as int, tall).1 * ys;
                    assert forall|qx: int, qy: int| in_rect(qx, qy, cx, cy, xs as int, ys as int) implies
                        #[trigger] self.collision_map.has(qx, qy) == s0.collision_map.has(qx, qy) by {
                        lemma_not_carved_before(k as int, k as int, tall, px as int, py as int, xs as int, ys as int, qx, qy);
                    }
                    if s0.collision_map.rect_solid(cx, cy, xs as int, ys as int) {
                        let (qx, qy) = choose|qx: int, qy: int|
                            in_rect(qx, qy, cx, cy, xs as int, ys as int) && #[trigger] s0.collision_map.has(qx, qy);
                        assert(self.collision_map.has(qx, qy));
                    }
                }
                let (_, tr) = self.collision_map.remove_rect(x, y, xs, ys);
                if tr > 0 {
                    if debris.len() < MAX_PARTICLES && self.particles.len() < MAX_PARTICLES
                        - debris.len() {
                        let (vx, vy) = debris_velocity(ex, ey);
                        let mut d = Sprite::from_collider(
                            single_cell_collider(),
                            x as i64 * SUBPIXEL,
                            y as i64 * SUBPIXEL,
                            xs,
                            ys,
                        );
                        d.vx = vx;
                        d.vy = vy;
                        proof {
                            vstd::arithmetic::div_mod::lemma_div_multiples_vanish(x as int, SUBPIXEL as int);
                            vstd::arithmetic::div_mod::lemma_div_multiples_vanish(y as int, SUBPIXEL as int);
                            assert(x * SUBPIXEL == SUBPIXEL * x);
                            assert(y * SUBPIXEL == SUBPIXEL * y);
                            assert(dx * xs - 8 * xs == (dx - 8) * xs) by (nonlinear_arith);
                            assert(dy * ys - 8 * ys == (dy - 8) * ys) by (nonlinear_arith);
                            assert((d.x as int) / (SUBPIXEL as int) - (px + 8 * xs) == ex);
                            assert((d.y as int) / (SUBPIXEL as int) - (py + 8 * ys) == ey);
                            assert(thrown_from(d, px + 8 * xs, py + 8 * ys));
                        }
                        let ghost before = debris@;
                        debris.push(d);
                        proof {
                            assert(debris@.subrange(0, d0.len() as int) =~= before.subrange(0, d0.len() as int));
                        }
                    }
                    let ghost before = self.tile_queue@;
                    self.tile_queue.mark_rect(LAYER_TERRAIN, x, y, xs, ys);
                    proof {
                        assert(self.tile_queue@.subrange(0, s0.tile_queue@.len() as int)
                            =~= before.subrange(0, s0.tile_queue@.len() as int));
                    }
                }
            }
            k = k + 1;
        }
    }
}

/// One entity slot after the motion phase: an entity within reach of the
/// camera took one tick against the terrain of `s0` and a rubble map that is
/// either that of `s0` or cleared; any other slot is unchanged.
pub open spec fn slot_moved(
    s0: Scene,
    a: Option<Sprite>,
    b: Option<Sprite>,
    cam_x: int,
    cam_y: int,
    camera_scale: int,
    tick: int,
) -> bool {
    match a {
        None => b is None,
        Some(x) => b is Some && if within_reach(
            pixel_of(x.x as int),
            pixel_of(x.y as int),
            cam_x,
            cam_y,
            camera_scale,
        ) {
            exists|rubble: CollisionTree, r: StepReport|
                (rubble == s0.rubble_map || rubble.is_clear()) && #[trigger] stepped(
                    x,
                    b->Some_0,
                    s0.collision_map,
                    rubble,
                    tick,
                    r,
                )
        } else {
            b->Some_0 == x
        },
    }
}

/// `s1` is `s0` after the motion phase: every slot moved as `slot_moved`
/// says, the rubble map is kept or cleared, and nothing else changed.
pub open spec fn moved_all(
    s0: Scene,
    s1: Scene,
    cam_x: int,
    cam_y: int,
    camera_scale: int,
    tick: int,
) -> bool {
    &&& s1.sprites@.len() == s0.sprites@.len()
    &&& s1 == (Scene { sprites: s1.sprites, rubble_map: s1.rubble_map, ..s0 })
    &&& (s1.rubble_map == s0.rubble_map || s1.rubble_map.is_clear())
    &&& forall|i: int|
        0 <= i < s0.sprites@.len() ==> slot_moved(
            s0,
            s0.sprites@[i],
            #[trigger] s1.sprites@[i],
            cam_x,
            cam_y,
            camera_scale,
            tick,
        )
}

/// What `carve` does for an entity at pixel `(px, py)` with scales
/// `(xs, ys)`, to the maps, the tile queue and the debris list (`d0` before,
/// `d1` after), as `Scene::carve` states it.
pub open spec fn carved(
    s: Scene,
    t: Scene,
    d0: Seq<Sprite>,
    d1: Seq<Sprite>,
    px: int,
    py: int,
    xs: int,
    ys: int,
) -> bool {
    let tall = ys == MAX_SCALE;
    let n = carve_len(tall);
    &&& t.collision_map.wf() && t.foreground_map.wf() && t.tile_queue.wf()
    &&& t.collision_map.same_domain(s.collision_map)
    &&& t.foreground_map.same_domain(s.foreground_map)
    &&& forall|qx: int, qy: int| #[trigger]
        t.collision_map.has(qx, qy) == (s.collision_map.has(qx, qy) && !carved_upto(
            n,
            tall,
            px,
            py,
            xs,
            ys,
            qx,
            qy,
        ))
    &&& forall|qx: int, qy: int| #[trigger]
        t.foreground_map.has(qx, qy) == (s.foreground_map.has(qx, qy) && !carved_upto(
            n,
            tall,
            px,
            py,
            xs,
            ys,
            qx,
            qy,
        ))
    &&& d1.len() >= d0.len()
    &&& d1.subrange(0, d0.len() as int) == d0
    &&& forall|i: int| 0 <= i < d1.len() ==> is_debris(#[trigger] d1[i])
    &&& forall|i: int| d0.len() <= i < d1.len() ==> thrown_from(#[trigger] d1[i], px + 8 * xs, py + 8 * ys)
    &&& d1.len() == d0.len() + min_nat(
        solid_cells_upto(s.collision_map, n, tall, px, py, xs, ys) as int,
        particle_room((d0.len() + s.particles@.len()) as int),
    )
    &&& queue_kept(s.tile_queue@, t.tile_queue@)
    &&& forall|q: (u32, i32, i32)|
        #[trigger] t.tile_queue@.contains(q) <==> (s.tile_queue@.contains(q) || (q.0 == LAYER_TERRAIN
            && cleared_tile_upto(s.collision_map, n, tall, px, py, xs, ys, q.1 as int, q.2 as int))
            || (q.0 == LAYER_FOREGROUND && cleared_tile_upto(
            s.foreground_map,
            n,
            tall,
            px,
            py,
            xs,
            ys,
            q.1 as int,
            q.2 as int,
        )))
}

/// Whether a size change runs out this tick for a countdown `t`.
pub open spec fn timer_due(t: Option<i64>, tick: int, finale: bool) -> bool {
    match t {
        Some(v) => v - tick <= 0 || finale,
        None => false,
    }
}

/// The countdown `t` after `tick` microseconds.
pub open spec fn timer_after(t: Option<i64>, tick: int, finale: bool) -> Option<i64> {
    match t {
        Some(v) => if v - tick < -SCALE_CHANGE_TIMEOUT && (v - tick <= 0 || finale) {
            None
        } else {
            Some((v - tick) as i64)
        },
        None => None,
    }
}

/// The character `a` becomes `b` in the size-change phase, with the finale
/// flag `f0` when its countdown advances and `f1` when the change is folded.
pub open spec fn sprite_sized(a: Sprite, b: Sprite, tick: int, f0: bool, f1: bool) -> bool {
    let due = timer_due(a.potion_timer, tick, f0);
    let folds = due && a.pending_potions@.len() < 0x8000_0000;
    let (dx, dy) = scale_delta(a.pending_potions@, a.x_scale as int, a.y_scale as int, f1);
    let lim = CARVE_LIMIT * SUBPIXEL;
    let applies = folds && (dx != 0 || dy != 0) && -lim <= a.x <= lim && -lim <= a.y <= lim;
    &&& b.potion_timer == timer_after(a.potion_timer, tick, f0)
    &&& if folds {
        b.pending_potions@.len() == 0
    } else {
        b.pending_potions == a.pending_potions
    }
    &&& if applies {
        &&& b.x_scale == clamp(a.x_scale + dx, 1, MAX_SCALE as int)
        &&& b.y_scale == clamp(a.y_scale + dy, 1, MAX_SCALE as int)
        &&& b.x == a.x - 8 * SUBPIXEL * (b.x_scale - a.x_scale)
        &&& b.y == a.y - 16 * SUBPIXEL * (b.y_scale - a.y_scale)
    } else {
        b.x == a.x && b.y == a.y && b.x_scale == a.x_scale && b.y_scale == a.y_scale
    }
    &&& b.collider == a.collider && b.vx == a.vx && b.vy == a.vy
    &&& b.ground_contact == a.ground_contact && b.jumping == a.jumping
    &&& b.sleep_timer == a.sleep_timer && b.gravity == a.gravity && b.is_player == a.is_player
}

/// The character `id` takes its size-change step: scene `s` becomes `t`
/// and the debris list `d0` becomes `d1`. The countdown advances; at expiry
/// the pending potions fold into one change of scale (forced growth once the
/// finale runs, which a character reaching expiry starts after the end
/// sequence); growth carves around the rescaled character.
pub open spec fn char_sized(
    s: Scene,
    t: Scene,
    d0: Seq<Sprite>,
    d1: Seq<Sprite>,
    id: int,
    tick: int,
) -> bool {
    if !(0 <= id < s.sprites@.len()) || s.sprites@[id] is None {
        t == s && d1 == d0
    } else {
        let a = s.sprites@[id]->Some_0;
        let f0 = s.final_potion_triggered;
        let due = timer_due(a.potion_timer, tick, f0);
        let f1 = f0 || (due && s.end_sequence_triggered);
        let b = t.sprites@[id]->Some_0;
        let (dx, dy) = scale_delta(a.pending_potions@, a.x_scale as int, a.y_scale as int, f1);
        let lim = CARVE_LIMIT * SUBPIXEL;
        let grows = due && a.pending_potions@.len() < 0x8000_0000 && (dx > 0 || dy > 0) && -lim
            <= a.x <= lim && -lim <= a.y <= lim;
        let px = pixel_of(b.x as int);
        let py = pixel_of(b.y as int);
        let carves = grows && -CARVE_LIMIT <= px <= CARVE_LIMIT && -CARVE_LIMIT <= py <= CARVE_LIMIT;
        &&& t.sprites@.len() == s.sprites@.len()
        &&& t.sprites@[id] is Some
        &&& t.sprites@ == s.sprites@.update(id, t.sprites@[id])
        &&& sprite_sized(a, b, tick, f0, f1)
        &&& t.final_potion_triggered == f1
        &&& if carves {
            &&& carved(s, t, d0, d1, px, py, b.x_scale as int, b.y_scale as int)
            &&& t == (Scene {
                sprites: t.sprites,
                collision_map: t.collision_map,
                foreground_map: t.foreground_map,
                tile_queue: t.tile_queue,
                final_potion_triggered: f1,
                ..s
            })
        } else {
            &&& t == (Scene { sprites: t.sprites, final_potion_triggered: f1, ..s })
            &&& d1 == d0
        }
    }
}

/// The size-change phase: each character in list order takes its step, from
/// scene `s` and debris list `d0` to scene `t` and debris list `d1`.
pub open spec fn sized_all(s: Scene, t: Scene, d0: Seq<Sprite>, d1: Seq<Sprite>, tick: int) -> bool {
    exists|states: Seq<Scene>, ds: Seq<Seq<Sprite>>|
        #![trigger states.len(), ds.len()]
        {
            let n = s.characters@.len();
            &&& states.len() == n + 1 && ds.len() == n + 1
            &&& states[0] == s && ds[0] == d0
            &&& states[n as int] == t && ds[n as int] == d1
            &&& forall|k: int|
                0 <= k < n ==> #[trigger] char_sized(
                    states[k],
                    states[k + 1],
                    ds[k],
                    ds[k + 1],
                    s.characters@[k] as int,
                    tick,
                )
        }
}

/// The fate of a particle, as `particle_fate` decides it.
pub open spec fn fate_of(s: Sprite) -> ParticleFate {
    if s.y > DESPAWN_DEPTH * SUBPIXEL {
        ParticleFate::Despawn
    } else if s.ground_contact && s.sleep_timer > SETTLE_TIME {
        ParticleFate::Settle
    } else {
        ParticleFate::Keep
    }
}

/// The slot of a listed particle, `a` before and `b` after the particle
/// phase, and whether the id stays listed: a kept particle stays, any other
/// leaves the list and the scene.
pub open spec fn particle_slot_done(a: Option<Sprite>, b: Option<Sprite>, listed: bool) -> bool {
    match a {
        Some(p) => if fate_of(p) == ParticleFate::Keep {
            b == a && listed
        } else {
            b is None && !listed
        },
        None => b is None && !listed,
    }
}

/// Slot `i` of `s` holds a particle listed in `list` that settles in this phase.
pub open spec fn settles(s: Scene, list: Seq<usize>, i: int) -> bool {
    &&& 0 <= i < s.sprites@.len()
    &&& list.contains(i as usize)
    &&& s.sprites@[i] is Some
    &&& fate_of(s.sprites@[i]->Some_0) == ParticleFate::Settle
}

/// Some particle of `list` that settles in `s` covers the world pixel `(qx, qy)`.
pub open spec fn settled_cover(s: Scene, list: Seq<usize>, qx: int, qy: int) -> bool {
    exists|i: int|
        #[trigger] settles(s, list, i) && covers(
            s.sprites@[i]->Some_0.collider@,
            pixel_of(s.sprites@[i]->Some_0.x as int),
            pixel_of(s.sprites@[i]->Some_0.y as int),
            s.sprites@[i]->Some_0.x_scale as int,
            s.sprites@[i]->Some_0.y_scale as int,
            qx,
            qy,
        )
}

/// Some particle of `list` that settles in `s` has a solid cell over the tile `(tx, ty)`.
pub open spec fn settled_tile(s: Scene, list: Seq<usize>, tx: int, ty: int) -> bool {
    exists|i: int|
        #[trigger] settles(s, list, i) && collider_tile_upto(
            s.sprites@[i]->Some_0.collider@,
            CELLS as int,
            pixel_of(s.sprites@[i]->Some_0.x as int),
            pixel_of(s.sprites@[i]->Some_0.y as int),
            s.sprites@[i]->Some_0.x_scale as int,
            s.sprites@[i]->Some_0.y_scale as int,
            tx,
            ty,
        )
}

/// `s1` is `s0` after the particle phase: particles below the world leave,
/// resting grounded ones leave and become terrain and rubble with their
/// terrain tiles queued, the others stay.
pub open spec fn particles_done(s0: Scene, s1: Scene) -> bool {
    &&& s1.sprites@.len() == s0.sprites@.len()
    &&& s1 == (Scene {
        sprites: s1.sprites,
        particles: s1.particles,
        collision_map: s1.collision_map,
        rubble_map: s1.rubble_map,
        tile_queue: s1.tile_queue,
        ..s0
    })
    &&& forall|i: int|
        0 <= i < s0.sprites@.len() ==> if s0.particles@.contains(i as usize) {
            particle_slot_done(
                s0.sprites@[i],
                #[trigger] s1.sprites@[i],
                s1.particles@.contains(i as usize),
            )
        } else {
            s1.sprites@[i] == s0.sprites@[i]
        }
    &&& forall|id: usize| #[trigger] s1.particles@.contains(id) ==> s0.particles@.contains(id)
    &&& s1.collision_map.same_domain(s0.collision_map)
    &&& s1.rubble_map.same_domain(s0.rubble_map)
    &&& forall|qx: int, qy: int| #[trigger]
        s1.collision_map.has(qx, qy) == (s0.collision_map.has(qx, qy) || (
        s0.collision_map.in_domain(qx, qy) && settled_cover(s0, s0.particles@, qx, qy)))
    &&& forall|qx: int, qy: int| #[trigger]
        s1.rubble_map.has(qx, qy) == (s0.rubble_map.has(qx, qy) || (s0.rubble_map.in_domain(qx, qy)
            && settled_cover(s0, s0.particles@, qx, qy)))
    &&& queue_kept(s0.tile_queue@, s1.tile_queue@)
    &&& forall|t: (u32, i32, i32)|
        #[trigger] s1.tile_queue@.contains(t) <==> (s0.tile_queue@.contains(t) || (t.0
            == LAYER_TERRAIN && settled_tile(s0, s0.particles@, t.1 as int, t.2 as int)))
}

/// The new debris `d` joins `s0` as particles with fresh ids, giving `s1`.
pub open spec fn debris_joined(s0: Scene, d: Seq<Sprite>, s1: Scene) -> bool {
    let n = s0.sprites@.len();
    &&& s1.sprites@.len() == n + d.len()
    &&& s1.sprites@.subrange(0, n as int) == s0.sprites@
    &&& forall|i: int| 0 <= i < d.len() ==> #[trigger] s1.sprites@[n + i] == Some(d[i])
    &&& s1.particles@.len() == s0.particles@.len() + d.len()
    &&& s1.particles@.subrange(0, s0.particles@.len() as int) == s0.particles@
    &&& forall|i: int|
        0 <= i < d.len() ==> #[trigger] s1.particles@[s0.particles@.len() + i] == (n + i) as usize
    &&& s1 == (Scene { sprites: s1.sprites, particles: s1.particles, ..s0 })
}

/// The entities in slots `a` and `b` of `s` both exist and share a solid pixel.
pub open spec fn slots_overlap(s: Scene, a: int, b: int) -> bool {
    0 <= a < s.sprites@.len() && 0 <= b < s.sprites@.len() && s.sprites@[a] is Some
        && s.sprites@[b] is Some && exists|qx: int, qy: int|
        solid_pixel(s.sprites@[a]->Some_0, qx, qy) && solid_pixel(s.sprites@[b]->Some_0, qx, qy)
}

/// The first of the first `n` characters of `s` that overlaps the entity `id`.
pub open spec fn first_toucher(s: Scene, id: int, n: int) -> Option<int>
    decreases n,
{
    if n <= 0 {
        None
    } else {
        match first_toucher(s, id, n - 1) {
            Some(c) => Some(c),
            None => if slots_overlap(s, s.characters@[n - 1] as int, id) {
                Some(n - 1)
            } else {
                None
            },
        }
    }
}

/// The character index that drinks potion `k` of `s`, if any: the first
/// character that overlaps it.
pub open spec fn drinker(s: Scene, k: int) -> Option<int> {
    first_toucher(s, s.potions@[k].0 as int, s.characters@.len() as int)
}

/// Among the first `n` potions, one that starts the end sequence is drunk.
pub open spec fn end_potion_drunk(s: Scene, n: int) -> bool {
    exists|k: int| 0 <= k < n && #[trigger] drinker(s, k) is Some && s.potions@[k].2
}

/// The first `n` potions of `s` that nobody drinks, each turned into a small
/// relative growth when the end sequence starts.
pub open spec fn potions_left(s: Scene, n: int, start_end: bool) -> Seq<(usize, PotionType, bool)>
    decreases n,
{
    if n <= 0 {
        Seq::empty()
    } else {
        let rest = potions_left(s, n - 1, start_end);
        let (id, t, end) = s.potions@[n - 1];
        if drinker(s, n - 1) is Some {
            rest
        } else if start_end {
            rest.push((id, PotionType::Relative(END_SEQUENCE_DELTA, END_SEQUENCE_DELTA), end))
        } else {
            rest.push((id, t, end))
        }
    }
}

/// Types of the first `n` potions of `s` that character index `c` drinks.
pub open spec fn drunk_row(s: Scene, c: int, n: int) -> Seq<PotionType>
    decreases n,
{
    if n <= 0 {
        Seq::empty()
    } else if drinker(s, n - 1) == Some(c) {
        drunk_row(s, c, n - 1).push(s.potions@[n - 1].1)
    } else {
        drunk_row(s, c, n - 1)
    }
}

/// Types of the potions that the entity `id` drinks as one of the first `m`
/// characters of `s`, character by character, each in potion order.
pub open spec fn drunk(s: Scene, id: int, m: int) -> Seq<PotionType>
    decreases m,
{
    if m <= 0 {
        Seq::empty()
    } else if s.characters@[m - 1] == id {
        drunk(s, id, m - 1) + drunk_row(s, m - 1, s.potions@.len() as int)
    } else {
        drunk(s, id, m - 1)
    }
}

/// The countdown after a drink, as `Sprite::drink` sets it.
pub open spec fn drink_timer(t: Option<i64>) -> Option<i64> {
    match t {
        Some(v) => if v > 0 {
            Some(v)
        } else {
            Some(SCALE_CHANGE_TIMEOUT)
        },
        None => Some(SCALE_CHANGE_TIMEOUT),
    }
}

/// `b` is `a` after drinking the potions `seq` in order.
pub open spec fn drank(a: Sprite, b: Sprite, seq: Seq<PotionType>) -> bool {
    &&& b == (Sprite { pending_potions: b.pending_potions, potion_timer: b.potion_timer, ..a })
    &&& b.pending_potions@ == a.pending_potions@ + seq
    &&& b.potion_timer == if seq.len() > 0 {
        drink_timer(a.potion_timer)
    } else {
        a.potion_timer
    }
}

/// The entity `id` is listed as a potion of `s`.
pub open spec fn is_potion(s: Scene, id: int) -> bool {
    exists|k: int| 0 <= k < s.potions@.len() && #[trigger] s.potions@[k].0 == id
}

/// The option `o` holds the index `i`.
pub open spec fn same_index(o: Option<usize>, i: Option<int>) -> bool {
    match o {
        Some(v) => i == Some(v as int),
        None => i is None,
    }
}

/// Slot `id` of `s` is slot `id` of `s0` after drinking what the first `n`
/// characters drink, and, when `id == cid`, what character `n` drinks among
/// the first `p` potions.
pub open spec fn slot_drank(s0: Scene, s: Scene, id: int, n: int, cid: int, p: int) -> bool {
    let seq = drunk(s0, id, n) + if id == cid {
        drunk_row(s0, n, p)
    } else {
        Seq::<PotionType>::empty()
    };
    if s0.sprites@[id] is Some {
        s.sprites@[id] is Some && drank(s0.sprites@[id]->Some_0, s.sprites@[id]->Some_0, seq)
    } else {
        s.sprites@[id] is None
    }
}

/// `s1` is `s0` after the pickup phase. Each potion is drunk by the first
/// character that overlaps it: its type joins that character's pending list
/// and the potion leaves the scene; a drunk potion that starts the end
/// sequence turns every potion left into a small relative growth. Taken
/// collectables leave the scene and raise the score.
pub open spec fn pickups_done(s0: Scene, s1: Scene) -> bool {
    &&& s1.sprites@.len() == s0.sprites@.len()
    &&& s1 == (Scene {
        sprites: s1.sprites,
        potions: s1.potions,
        collectables: s1.collectables,
        collected: s1.collected,
        score: s1.score,
        done: s1.done,
        end_sequence_triggered: s1.end_sequence_triggered,
        ..s0
    })
    &&& s1.score >= s0.score
    &&& s0.done ==> s1.done
    &&& s1.end_sequence_triggered == (s0.end_sequence_triggered || end_potion_drunk(
        s0,
        s0.potions@.len() as int,
    ))
    &&& s1.potions@ == potions_left(
        s0,
        s0.potions@.len() as int,
        end_potion_drunk(s0, s0.potions@.len() as int),
    )
    &&& forall|k: int|
        0 <= k < s0.potions@.len() && #[trigger] drinker(s0, k) is Some && (s0.potions@[k].0 as int)
            < s0.sprites@.len() ==> s1.sprites@[s0.potions@[k].0 as int] is None
    &&& forall|id: int|
        0 <= id < s0.sprites@.len() && s0.sprites@[id] is Some && !is_potion(s0, id)
            && !s0.collectables@.contains(id as usize) ==> #[trigger] s1.sprites@[id] is Some && drank(
            s0.sprites@[id]->Some_0,
            s1.sprites@[id]->Some_0,
            drunk(s0, id, s0.characters@.len() as int),
        )
}

/// `s1` is `s0` after one tick: motion, particles, pickups, size changes,
/// and the new debris joining the particles, each phase as its relation states.
pub open spec fn ticked(s0: Scene, s1: Scene, cam_x: int, cam_y: int, camera_scale: int, tick: int) -> bool {
    exists|a: Scene, b: Scene, c: Scene, d: Scene, debris: Seq<Sprite>|
        #![trigger moved_all(s0, a, cam_x, cam_y, camera_scale, tick), particles_done(a, b), pickups_done(b, c), sized_all(c, d, Seq::<Sprite>::empty(), debris, tick)]
        moved_all(s0, a, cam_x, cam_y, camera_scale, tick) && particles_done(a, b)
            && pickups_done(b, c) && sized_all(c, d, Seq::<Sprite>::empty(), debris, tick)
            && debris_joined(d, debris, s1)
}

impl Scene {
    /// Takes the entity `id` out of the scene, leaving `None` in its place.
    fn take_sprite(&mut self, id: usize) -> (r: Option<Sprite>)
        requires
            old(self).wf(),
        ensures
            final(self).wf(),
            r is Some ==> r->Some_0.wf(),
            id < old(self).sprites@.len() ==> r == old(self).sprites@[id as int]
                && final(self).sprites@ == old(self).sprites@.update(id as int, None),
            id >= old(self).sprites@.len() ==> r is None && final(self).sprites == old(self).sprites,
            *final(self) == (Scene { sprites: final(self).sprites, ..*old(self) }),
    {
        if id < self.sprites.len() {
            let mut slot: Option<Sprite> = None;
            self.sprites.set_and_swap(id, &mut slot);
            proof {
                assert forall|i: int|
                    0 <= i < self.sprites@.len() && #[trigger] self.sprites@[i] is Some
                        implies self.sprites@[i]->Some_0.wf() by {
                    assert(self.sprites@[i] == old(self).sprites@[i]);
                }
                if slot is Some {
                    assert(old(self).sprites@[id as int] is Some);
                }
            }
            slot
        } else {
            None
        }
    }

    /// Puts the entity `s` back under the id `id`.
    fn put_sprite(&mut self, id: usize, s: Sprite)
        requires
            old(self).wf(),
            s.wf(),
            id < old(self).sprites@.len(),
        ensures
            final(self).wf(),
            final(self).sprites@ == old(self).sprites@.update(id as int, Some(s)),
            *final(self) == (Scene { sprites: final(self).sprites, ..*old(self) }),
    {
        let mut slot = Some(s);
        self.sprites.set_and_swap(id, &mut slot);
        proof {
            assert forall|i: int|
                0 <= i < self.sprites@.len() && #[trigger] self.sprites@[i] is Some
                    implies self.sprites@[i]->Some_0.wf() by {
                if i != id {
                    assert(self.sprites@[i] == old(self).sprites@[i]);
                }
            }
        }
    }

    /// Whether the entities `a` and `b` both exist and overlap.
    fn sprites_overlap(&self, a: usize, b: usize) -> (r: bool)
        requires
            self.wf(),
        ensures
            r == slots_overlap(*self, a as int, b as int),
            r == (a < self.sprites@.len() && b < self.sprites@.len() && self.sprites@[a as int] is Some
                && self.sprites@[b as int] is Some && exists|qx: int, qy: int|
                solid_pixel(self.sprites@[a as int]->Some_0, qx, qy) && solid_pixel(
                    self.sprites@[b as int]->Some_0,
                    qx,
                    qy,
                )),
    {
        if a < self.sprites.len() && b < self.sprites.len() {
            match (&self.sprites[a], &self.sprites[b]) {
                (Some(sa), Some(sb)) => sa.overlap(sb),
                _ => false,
            }
        } else {
            false
        }
    }

    /// Moves every entity near the camera by one tick; the rubble map is
    /// cleared whenever the player ends its motion outside rubble.
    fn move_sprites(&mut self, cam_x: i32, cam_y: i32, camera_scale: u32, tick: i64)
        requires
            old(self).wf(),
            0 < tick <= MAX_TICK,
            camera_scale <= SCALE_LIMIT,
        ensures
            final(self).wf(),
            final(self).sprites@.len() == old(self).sprites@.len(),
            final(self).particles == old(self).particles,
            final(self).characters == old(self).characters,
            final(self).potions == old(self).potions,
            final(self).collectables == old(self).collectables,
            final(self).score == old(self).score,
            final(self).done == old(self).done,
            final(self).end_sequence_triggered == old(self).end_sequence_triggered,
            final(self).final_potion_triggered == old(self).final_potion_triggered,
            final(self).tile_queue == old(self).tile_queue,
            moved_all(*old(self), *final(self), cam_x as int, cam_y as int, camera_scale as int, tick as int),
    {
        let n = self.sprites.len();
        let mut id: usize = 0;
        while id < n
            invariant
                self.tile_queue == old(self).tile_queue,
                self.wf(),
                0 < tick <= MAX_TICK,
                n == self.sprites@.len(),
                n == old(self).sprites@.len(),
                id <= n,
                *self == (Scene { sprites: self.sprites, rubble_map: self.rubble_map, ..*old(self) }),
                self.rubble_map == old(self).rubble_map || self.rubble_map.is_clear(),
                forall|i: int|
                    0 <= i < id ==> slot_moved(
                        *old(self),
                        old(self).sprites@[i],
                        #[trigger] self.sprites@[i],
                        cam_x as int,
                        cam_y as int,
                        camera_scale as int,
                        tick as int,
                    ),
                forall|i: int| id <= i < n ==> #[trigger] self.sprites@[i] == old(self).sprites@[i],
                camera_scale <= SCALE_LIMIT,
                self.particles == old(self).particles,
                self.characters == old(self).characters,
                self.potions == old(self).potions,
                self.collectables == old(self).collectables,
                self.score == old(self).score,
                self.done == old(self).done,
                self.end_sequence_triggered == old(self).end_sequence_triggered,
                self.final_potion_triggered == old(self).final_potion_triggered,
            decreases n - id,
        {
            let ghost before = *self;
            if let Some(mut s) = self.take_sprite(id) {
                let ghost a = s;
                let (px, py) = s.pixel_pos();
                if in_reach(px, py, cam_x, cam_y, camera_scale) {
                    let ghost rb = self.rubble_map;
                    let report = s.step(&self.collision_map, &self.rubble_map, tick);
                    proof {
                        assert((rb == old(self).rubble_map || rb.is_clear()) && stepped(
                            a,
                            s,
                            old(self).collision_map,
                            rb,
                            tick as int,
                            report,
                        ));
                    }
                    if s.is_player && !report.in_rubble {
                        self.rubble_map.clear();
                    }
                }
                self.put_sprite(id, s);
                proof {
                    assert(slot_moved(
                        *old(self),
                        old(self).sprites@[id as int],
                        self.sprites@[id as int],
                        cam_x as int,
                        cam_y as int,
                        camera_scale as int,
                        tick as int,
                    ));
                    assert forall|i: int| 0 <= i < n && i != id implies #[trigger] self.sprites@[i]
                        == before.sprites@[i] by {}
                }
            }
            id = id + 1;
        }
    }

    /// Drops particles that fell below the world, and turns grounded particles
    /// that rested long enough into terrain.
    fn settle_particles(&mut self)
        requires
            old(self).wf(),
        ensures
            final(self).wf(),
            particles_done(*old(self), *final(self)),
            final(self).sprites@.len() == old(self).sprites@.len(),
            final(self).characters == old(self).characters,
            final(self).potions == old(self).potions,
            final(self).collectables == old(self).collectables,
            final(self).score == old(self).score,
            final(self).done == old(self).done,
            final(self).end_sequence_triggered == old(self).end_sequence_triggered,
            final(self).final_potion_triggered == old(self).final_potion_triggered,
            final(self).particles@.len() <= old(self).particles@.len(),
            queue_kept(old(self).tile_queue@, final(self).tile_queue@),
    {
        proof {
            assert(self.tile_queue@.subrange(0, self.tile_queue@.len() as int) =~= self.tile_queue@);
        }
        let ghost s0 = *self;
        let mut kept: Vec<usize> = Vec::new();
        let mut i: usize = 0;
        while i < self.particles.len()
            invariant
                queue_kept(s0.tile_queue@, self.tile_queue@),
                self.wf(),
                s0 == *old(self),
                i <= self.particles@.len(),
                self.particles == s0.particles,
                kept@.len() <= i,
                self.sprites@.len() == s0.sprites@.len(),
                *self == (Scene {
                    sprites: self.sprites,
                    collision_map: self.collision_map,
                    rubble_map: self.rubble_map,
                    tile_queue: self.tile_queue,
                    ..s0
                }),
                forall|j: int|
                    0 <= j < s0.sprites@.len() ==> if s0.particles@.subrange(0, i as int).contains(
                        j as usize,
                    ) {
                        particle_slot_done(
                            s0.sprites@[j],
                            #[trigger] self.sprites@[j],
                            kept@.contains(j as usize),
                        )
                    } else {
                        self.sprites@[j] == s0.sprites@[j]
                    },
                forall|id: usize|
                    #[trigger] kept@.contains(id) ==> s0.particles@.subrange(0, i as int).contains(id),
                self.collision_map.same_domain(s0.collision_map),
                self.rubble_map.same_domain(s0.rubble_map),
                forall|qx: int, qy: int| #[trigger]
                    self.collision_map.has(qx, qy) == (s0.collision_map.has(qx, qy) || (
                    s0.collision_map.in_domain(qx, qy) && settled_cover(
                        s0,
                        s0.particles@.subrange(0, i as int),
                        qx,
                        qy,
                    ))),
                forall|qx: int, qy: int| #[trigger]
                    self.rubble_map.has(qx, qy) == (s0.rubble_map.has(qx, qy) || (
                    s0.rubble_map.in_domain(qx, qy) && settled_cover(
                        s0,
                        s0.particles@.subrange(0, i as int),
                        qx,
                        qy,
                    ))),
                forall|t: (u32, i32, i32)|
                    #[trigger] self.tile_queue@.contains(t) <==> (s0.tile_queue@.contains(t) || (t.0
                        == LAYER_TERRAIN && settled_tile(
                        s0,
                        s0.particles@.subrange(0, i as int),
                        t.1 as int,
                        t.2 as int,
                    ))),
            decreases self.particles@.len() - i,
        {
            let pid = self.particles[i];
            let ghost pre = s0.particles@.subrange(0, i as int);
            let ghost post = s0.particles@.subrange(0, i + 1);
            let ghost cur = *self;
            let ghost kept0 = kept@;
            proof {
                assert(post =~= pre.push(pid));
                assert forall|x: usize| post.contains(x) <==> (pre.contains(x) || x == pid) by {
                    if post.contains(x) {
                        let k = choose|k: int| 0 <= k < post.len() && post[k] == x;
                        if k < pre.len() {
                            assert(pre[k] == x);
                        }
                    }
                    if pre.contains(x) {
                        let k = choose|k: int| 0 <= k < pre.len() && pre[k] == x;
                        assert(post[k] == x);
                    }
                    if x == pid {
                        assert(post[i as int] == x);
                    }
                }
            }
            if pid < self.sprites.len() && self.sprites[pid].is_some() {
                let s = self.take_sprite(pid).unwrap();
                proof {
                    assert(s0.sprites@[pid as int] == Some(s));
                }
                let fate = particle_fate(&s);
                if fate == ParticleFate::Despawn {
                    // fallen out of the world: dropped
                } else if fate == ParticleFate::Settle {
                    let ghost before = self.tile_queue@;
                    self.settle(&s);
                    proof {
                        lemma_queue_kept_trans(s0.tile_queue@, before, self.tile_queue@);
                        assert(settles(s0, post, pid as int));
                    }
                } else {
                    self.put_sprite(pid, s);
                    kept.push(pid);
                    proof {
                        assert forall|x: usize| kept@.contains(x) <==> (kept0.contains(x) || x == pid) by {
                            if kept@.contains(x) {
                                let k = choose|k: int| 0 <= k < kept@.len() && kept@[k] == x;
                                if k < kept0.len() {
                                    assert(kept0[k] == x);
                                }
                            }
                            if kept0.contains(x) {
                                let k = choose|k: int| 0 <= k < kept0.len() && kept0[k] == x;
                                assert(kept@[k] == x);
                            }
                            if x == pid {
                                assert(kept@[kept0.len() as int] == x);
                            }
                        }
                    }
                }
                proof {
                    assert forall|x: usize| #[trigger] kept@.contains(x) implies post.contains(x) by {
                        if x != pid {
                            assert(kept0.contains(x));
                        }
                    }
                    assert forall|j: int| 0 <= j < s0.sprites@.len() && j != pid implies #[trigger] self.sprites@[j] == cur.sprites@[j] by {}
                    assert forall|j: int| #[trigger] settles(s0, post, j) && j != pid implies settles(s0, pre, j) by {}
                    assert forall|j: int| #[trigger] settles(s0, pre, j) implies settles(s0, post, j) by {}
                }
            } else {
                proof {
                    assert forall|j: int| #[trigger] settles(s0, post, j) implies settles(s0, pre, j) by {}
                    assert forall|j: int| #[trigger] settles(s0, pre, j) implies settles(s0, post, j) by {}
                }
            }
            proof {
                assert forall|j: int| 0 <= j < s0.sprites@.len() implies if post.contains(j as usize) {
                    particle_slot_done(s0.sprites@[j], #[trigger] self.sprites@[j], kept@.contains(j as usize))
                } else {
                    self.sprites@[j] == s0.sprites@[j]
                } by {
                    if j != pid as int {
                        assert(self.sprites@[j] == cur.sprites@[j]);
                        assert(kept@.contains(j as usize) == kept0.contains(j as usize));
                        assert(post.contains(j as usize) == pre.contains(j as usize));
                    } else {
                        if pre.contains(pid) {
                            assert(particle_slot_done(s0.sprites@[j], cur.sprites@[j], kept0.contains(pid)));
                        } else {
                            assert(!kept0.contains(pid));
                            assert(cur.sprites@[j] == s0.sprites@[j]);
                        }
                    }
                }
            }
            i = i + 1;
        }
        proof {
            assert(s0.particles@.subrange(0, i as int) =~= s0.particles@);
        }
        self.particles = kept;
    }

    /// Characters drink the potions and take the collectables they overlap.
    /// Drunk potions leave the scene; a potion that starts the end sequence
    /// turns every remaining potion into a small relative growth; each
    /// collectable taken adds one to the score, and a large one ends the level.
    fn consume_pickups(&mut self)
        requires
            old(self).wf(),
        ensures
            final(self).wf(),
            pickups_done(*old(self), *final(self)),
            final(self).sprites@.len() == old(self).sprites@.len(),
            final(self).characters == old(self).characters,
            final(self).particles == old(self).particles,
            final(self).score >= old(self).score,
            old(self).done ==> final(self).done,
            old(self).end_sequence_triggered ==> final(self).end_sequence_triggered,
            final(self).final_potion_triggered == old(self).final_potion_triggered,
            final(self).tile_queue == old(self).tile_queue,
    {
        let ghost s0 = *self;
        let np = self.potions.len();
        let nc = self.collectables.len();
        let nch = self.characters.len();
        // who drinks each potion: the first character that overlaps it
        let mut drinkers: Vec<Option<usize>> = Vec::new();
        let mut start_end = false;
        let mut k: usize = 0;
        while k < np
            invariant
                *self == s0,
                s0.wf(),
                np == s0.potions@.len(),
                nch == s0.characters@.len(),
                k <= np,
                drinkers@.len() == k,
                forall|j: int| 0 <= j < k ==> same_index(#[trigger] drinkers@[j], drinker(s0, j)),
                start_end == end_potion_drunk(s0, k as int),
            decreases np - k,
        {
            let (pid, _, end) = self.potions[k];
            let mut found: Option<usize> = None;
            let mut c: usize = 0;
            while c < nch
                invariant
                    *self == s0,
                    s0.wf(),
                    nch == s0.characters@.len(),
                    k < np == s0.potions@.len(),
                    pid == s0.potions@[k as int].0,
                    c <= nch,
                    same_index(found, first_toucher(s0, pid as int, c as int)),
                decreases nch - c,
            {
                if found.is_none() && self.sprites_overlap(self.characters[c], pid) {
                    found = Some(c);
                }
                c = c + 1;
            }
            proof {
                assert(same_index(found, drinker(s0, k as int)));
                if found.is_some() && end {
                    assert(drinker(s0, k as int) is Some && s0.potions@[k as int].2);
                }
                if end_potion_drunk(s0, k + 1) {
                    let j = choose|j: int| 0 <= j < k + 1 && #[trigger] drinker(s0, j) is Some && s0.potions@[j].2;
                    if j < k {
                        assert(end_potion_drunk(s0, k as int));
                    }
                }
            }
            start_end = start_end || (found.is_some() && end);
            drinkers.push(found);
            k = k + 1;
        }
        // which collectables are taken, and whether a goal is among them
        let mut taken: Vec<bool> = Vec::new();
        k = 0;
        while k < nc
            invariant
                k <= nc,
                taken@.len() == k,
            decreases nc - k,
        {
            taken.push(false);
            k = k + 1;
        }
        let mut done = self.done;
        let mut c: usize = 0;
        while c < nch
            invariant
                *self == s0,
                s0.wf(),
                nch == s0.characters@.len(),
                nc == s0.collectables@.len(),
                taken@.len() == nc,
                s0.done ==> done,
            decreases nch - c,
        {
            let cid = self.characters[c];
            let mut q: usize = 0;
            while q < nc
                invariant
                    *self == s0,
                    s0.wf(),
                    nc == s0.collectables@.len(),
                    taken@.len() == nc,
                    c < nch == s0.characters@.len(),
                    s0.done ==> done,
                decreases nc - q,
            {
                if !taken[q] {
                    let gid = self.collectables[q];
                    if self.sprites_overlap(cid, gid) {
                        if gid < self.sprites.len() {
                            if let Some(g) = &self.sprites[gid] {
                                if g.x_scale > GOAL_SCALE {
                                    done = true;
                                }
                            }
                        }
                        taken.set(q, true);
                    }
                }
                q = q + 1;
            }
            c = c + 1;
        }
        // the drinkers queue their potions, character by character
        c = 0;
        proof {
            assert forall|id: int| 0 <= id < s0.sprites@.len() implies #[trigger] slot_drank(s0, *self, id, 0, -1, 0) by {
                if s0.sprites@[id] is Some {
                    assert(s0.sprites@[id]->Some_0.pending_potions@ + (Seq::<PotionType>::empty() + Seq::<PotionType>::empty())
                        =~= s0.sprites@[id]->Some_0.pending_potions@);
                    assert(Seq::<PotionType>::empty() + Seq::<PotionType>::empty() =~= Seq::<PotionType>::empty());
                }
            }
        }
        while c < nch
            invariant
                self.wf(),
                s0.wf(),
                nch == s0.characters@.len(),
                np == s0.potions@.len(),
                drinkers@.len() == np,
                forall|j: int| 0 <= j < np ==> same_index(#[trigger] drinkers@[j], drinker(s0, j)),
                c <= nch,
                *self == (Scene { sprites: self.sprites, ..s0 }),
                self.sprites@.len() == s0.sprites@.len(),
                forall|id: int|
                    0 <= id < s0.sprites@.len() ==> #[trigger] slot_drank(s0, *self, id, c as int, -1, 0),
            decreases nch - c,
        {
            let cid = self.characters[c];
            proof {
                assert forall|id: int| 0 <= id < s0.sprites@.len() implies #[trigger] slot_drank(s0, *self, id, c as int, cid as int, 0) by {
                    assert(slot_drank(s0, *self, id, c as int, -1, 0));
                    assert(drunk(s0, id, c as int) + Seq::<PotionType>::empty() =~= drunk(s0, id, c as int) + (if id == cid {
                        drunk_row(s0, c as int, 0)
                    } else {
                        Seq::<PotionType>::empty()
                    }));
                }
            }
            let mut p: usize = 0;
            while p < np
                invariant
                    self.wf(),
                    s0.wf(),
                    nch == s0.characters@.len(),
                    np == s0.potions@.len(),
                    drinkers@.len() == np,
                    forall|j: int| 0 <= j < np ==> same_index(#[trigger] drinkers@[j], drinker(s0, j)),
                    c < nch,
                    cid == s0.characters@[c as int],
                    p <= np,
                    *self == (Scene { sprites: self.sprites, ..s0 }),
                    self.sprites@.len() == s0.sprites@.len(),
                    forall|id: int|
                        0 <= id < s0.sprites@.len() ==> #[trigger] slot_drank(
                            s0,
                            *self,
                            id,
                            c as int,
                            cid as int,
                            p as int,
                        ),
                decreases np - p,
            {
                let ghost cur = *self;
                if drinkers[p] == Some(c) && cid < self.sprites.len() && self.sprites[cid].is_some() {
                    let mut s = self.take_sprite(cid).unwrap();
                    let ghost a = s;
                    s.drink(self.potions[p].1);
                    self.put_sprite(cid, s);
                    proof {
                        let base = s0.sprites@[cid as int]->Some_0;
                        let seq0 = drunk(s0, cid as int, c as int) + drunk_row(s0, c as int, p as int);
                        assert(drinker(s0, p as int) == Some(c as int));
                        assert(drunk_row(s0, c as int, p + 1) == drunk_row(s0, c as int, p as int).push(s0.potions@[p as int].1));
                        assert(seq0.push(s0.potions@[p as int].1) =~= drunk(s0, cid as int, c as int) + drunk_row(s0, c as int, p + 1));
                        assert(slot_drank(s0, cur, cid as int, c as int, cid as int, p as int));
                        assert(drank(base, s, seq0.push(s0.potions@[p as int].1)));
                        assert(slot_drank(s0, *self, cid as int, c as int, cid as int, p + 1));
                        assert forall|id: int| 0 <= id < s0.sprites@.len() implies #[trigger] slot_drank(s0, *self, id, c as int, cid as int, p + 1) by {
                            if id != cid {
                                assert(self.sprites@[id] == cur.sprites@[id]);
                                assert(slot_drank(s0, cur, id, c as int, cid as int, p as int));
                            }
                        }
                    }
                } else {
                    proof {
                        assert(same_index(drinkers@[p as int], drinker(s0, p as int)));
                        if drinker(s0, p as int) != Some(c as int) {
                            assert(drunk_row(s0, c as int, p + 1) == drunk_row(s0, c as int, p as int));
                        }
                        assert forall|id: int| 0 <= id < s0.sprites@.len() implies #[trigger] slot_drank(s0, *self, id, c as int, cid as int, p + 1) by {
                            assert(slot_drank(s0, cur, id, c as int, cid as int, p as int));
                        }
                    }
                }
                p = p + 1;
            }
            proof {
                assert forall|id: int| 0 <= id < s0.sprites@.len() implies #[trigger] slot_drank(s0, *self, id, c + 1, -1, 0) by {
                    assert(slot_drank(s0, *self, id, c as int, cid as int, np as int));
                    assert(drunk(s0, id, c + 1) + Seq::<PotionType>::empty() =~= drunk(s0, id, c as int) + (if id == cid {
                        drunk_row(s0, c as int, np as int)
                    } else {
                        Seq::<PotionType>::empty()
                    }));
                }
            }
            c = c + 1;
        }
        let ghost after_drinks = *self;
        proof {
            assert forall|id: int|
                0 <= id < s0.sprites@.len() && s0.sprites@[id] is Some implies #[trigger] after_drinks.sprites@[id] is Some
                    && drank(
                    s0.sprites@[id]->Some_0,
                    after_drinks.sprites@[id]->Some_0,
                    drunk(s0, id, nch as int),
                ) by {
                assert(slot_drank(s0, *self, id, c as int, -1, 0));
                assert(drunk(s0, id, nch as int) + Seq::<PotionType>::empty() =~= drunk(s0, id, nch as int));
            }
        }
        // drunk potions leave the scene; the end sequence rewrites the others
        let mut left: Vec<(usize, PotionType, bool)> = Vec::new();
        k = 0;
        while k < np
            invariant
                self.wf(),
                np == s0.potions@.len(),
                drinkers@.len() == np,
                forall|j: int| 0 <= j < np ==> same_index(#[trigger] drinkers@[j], drinker(s0, j)),
                k <= np,
                start_end == end_potion_drunk(s0, np as int),
                self.potions == s0.potions,
                *self == (Scene { sprites: self.sprites, ..after_drinks }),
                self.sprites@.len() == s0.sprites@.len(),
                left@ == potions_left(s0, k as int, start_end),
                forall|id: int|
                    0 <= id < s0.sprites@.len() ==> #[trigger] self.sprites@[id] == after_drinks.sprites@[id]
                        || (self.sprites@[id] is None && is_potion(s0, id)),
                forall|j: int|
                    0 <= j < k && drinker(s0, j) is Some && (s0.potions@[j].0 as int) < s0.sprites@.len()
                        ==> #[trigger] self.sprites@[s0.potions@[j].0 as int] is None,
            decreases np - k,
        {
            let (pid, pt, end) = self.potions[k];
            let ghost cur = *self;
            if drinkers[k].is_some() {
                let _ = self.take_sprite(pid);
                proof {
                    assert(s0.potions@[k as int].0 == pid);
                    assert(is_potion(s0, pid as int));
                    assert forall|id: int| 0 <= id < s0.sprites@.len() && id != pid implies #[trigger] self.sprites@[id] == cur.sprites@[id] by {}
                }
            } else {
                let pt2 = if start_end {
                    PotionType::Relative(END_SEQUENCE_DELTA, END_SEQUENCE_DELTA)
                } else {
                    pt
                };
                left.push((pid, pt2, end));
            }
            k = k + 1;
        }
        self.potions = left;
        if start_end {
            self.end_sequence_triggered = true;
        }
        let ghost after_potions = *self;
        // collectables taken move to the collected list
        let mut remaining: Vec<usize> = Vec::new();
        k = 0;
        while k < nc
            invariant
                self.wf(),
                k <= nc,
                nc == s0.collectables@.len(),
                taken@.len() == nc,
                self.collectables == s0.collectables,
                *self == (Scene {
                    sprites: self.sprites,
                    collected: self.collected,
                    score: self.score,
                    ..after_potions
                }),
                self.sprites@.len() == s0.sprites@.len(),
                self.score >= s0.score,
                forall|id: int|
                    0 <= id < s0.sprites@.len() ==> #[trigger] self.sprites@[id] == after_potions.sprites@[id]
                        || (self.sprites@[id] is None && s0.collectables@.contains(id as usize)),
            decreases nc - k,
        {
            let gid = self.collectables[k];
            let ghost cur = *self;
            if taken[k] {
                if let Some(g) = self.take_sprite(gid) {
                    self.collected.push((gid, g));
                }
                proof {
                    assert(s0.collectables@[k as int] == gid);
                    assert forall|id: int| 0 <= id < s0.sprites@.len() && id != gid implies #[trigger] self.sprites@[id] == cur.sprites@[id] by {}
                }
                if self.score < u32::MAX {
                    self.score = self.score + 1;
                }
            } else {
                remaining.push(gid);
            }
            k = k + 1;
        }
        self.collectables = remaining;
        self.done = done;
        proof {
            assert forall|k: int|
                0 <= k < s0.potions@.len() && #[trigger] drinker(s0, k) is Some && (s0.potions@[k].0 as int)
                    < s0.sprites@.len() implies self.sprites@[s0.potions@[k].0 as int] is None by {
                assert(after_potions.sprites@[s0.potions@[k].0 as int] is None);
            }
            assert forall|id: int|
                0 <= id < s0.sprites@.len() && s0.sprites@[id] is Some && !is_potion(s0, id)
                    && !s0.collectables@.contains(id as usize) implies #[trigger] self.sprites@[id] is Some
                    && drank(
                    s0.sprites@[id]->Some_0,
                    self.sprites@[id]->Some_0,
                    drunk(s0, id, s0.characters@.len() as int),
                ) by {
                assert(self.sprites@[id] == after_potions.sprites@[id]);
                assert(after_potions.sprites@[id] == after_drinks.sprites@[id]);
            }
        }
    }

    /// The size-change step of the character `cid`, as `char_sized` states it.
    #[verifier::rlimit(80)]
    fn resize_character(&mut self, cid: usize, tick: i64, debris: &mut Vec<Sprite>)
        requires
            old(self).wf(),
            0 < tick <= MAX_TICK,
            forall|i: int| 0 <= i < old(debris)@.len() ==> is_debris(#[trigger] old(debris)@[i]),
        ensures
            final(self).wf(),
            forall|i: int| 0 <= i < final(debris)@.len() ==> is_debris(#[trigger] final(debris)@[i]),
            char_sized(*old(self), *final(self), old(debris)@, final(debris)@, cid as int, tick as int),
            final(self).sprites@.len() == old(self).sprites@.len(),
            final(self).characters == old(self).characters,
            final(self).particles == old(self).particles,
            final(self).score == old(self).score,
            final(self).done == old(self).done,
            final(self).end_sequence_triggered == old(self).end_sequence_triggered,
            old(self).final_potion_triggered ==> final(self).final_potion_triggered,
            queue_kept(old(self).tile_queue@, final(self).tile_queue@),
    {
        let ghost st = *self;
        let ghost dd = debris@;
        proof {
            assert(self.tile_queue@.subrange(0, self.tile_queue@.len() as int) =~= self.tile_queue@);
        }
        if cid < self.sprites.len() && self.sprites[cid].is_some() {
            let mut s = self.take_sprite(cid).unwrap();
            let ghost a = s;
            let ghost f0 = self.final_potion_triggered;
            let due = s.advance_potion_timer(tick, self.final_potion_triggered);
            if due && self.end_sequence_triggered {
                self.final_potion_triggered = true;
            }
            let ghost mid = *self;
            let mut did_carve = false;
            if due && s.pending_potions.len() < 0x8000_0000 {
                let (dx, dy) = s.take_scale_delta(self.final_potion_triggered);
                let lim = CARVE_LIMIT as i64 * SUBPIXEL;
                if (dx != 0 || dy != 0) && -lim <= s.x && s.x <= lim && -lim <= s.y && s.y <= lim {
                    let ghost s1 = s;
                    s.apply_scale_delta(dx, dy);
                    assert(coord_ok(s.x as int)) by (nonlinear_arith)
                        requires
                            s.x == s1.x - 8 * 1024 * (s.x_scale - s1.x_scale),
                            1 <= s.x_scale <= 180,
                            1 <= s1.x_scale <= 4096,
                            -137438953472 <= s1.x <= 137438953472,
                    ;
                    assert(coord_ok(s.y as int)) by (nonlinear_arith)
                        requires
                            s.y == s1.y - 16 * 1024 * (s.y_scale - s1.y_scale),
                            1 <= s.y_scale <= 180,
                            1 <= s1.y_scale <= 4096,
                            -137438953472 <= s1.y <= 137438953472,
                    ;
                    assert(s.wf());
                    if dx > 0 || dy > 0 {
                        let (px, py) = s.pixel_pos();
                        if -CARVE_LIMIT <= px && px <= CARVE_LIMIT && -CARVE_LIMIT <= py && py
                            <= CARVE_LIMIT {
                            let ghost before = self.tile_queue@;
                            self.carve(px, py, s.x_scale, s.y_scale, debris);
                            did_carve = true;
                            proof {
                                lemma_queue_kept_trans(
                                    st.tile_queue@,
                                    before,
                                    self.tile_queue@,
                                );
                            }
                        }
                    }
                }
            }
            let ghost after_carve = *self;
            self.put_sprite(cid, s);
            proof {
                assert(self.sprites@ =~= st.sprites@.update(cid as int, self.sprites@[cid as int]));
                assert(a == st.sprites@[cid as int]->Some_0);
                assert(s == self.sprites@[cid as int]->Some_0);
                assert(sprite_sized(a, s, tick as int, f0, self.final_potion_triggered));
                assert(mid.collision_map == st.collision_map);
                assert(mid.foreground_map == st.foreground_map);
                assert(mid.tile_queue == st.tile_queue);
                assert(mid.particles == st.particles);
                if did_carve {
                    assert(carved(st, *self, dd, debris@, pixel_of(s.x as int), pixel_of(s.y as int), s.x_scale as int, s.y_scale as int));
                } else {
                    assert(debris@ == dd);
                }
                assert(due == timer_due(a.potion_timer, tick as int, f0));
                assert(self.final_potion_triggered == (f0 || (due && st.end_sequence_triggered)));
                assert(self.sprites@.len() == st.sprites@.len());
                assert(self.sprites@[cid as int] is Some);
                assert(self.sprites@ == st.sprites@.update(cid as int, self.sprites@[cid as int]));
                let t = *self;
                let b = t.sprites@[cid as int]->Some_0;
                let f1 = f0 || (due && st.end_sequence_triggered);
                let lim = CARVE_LIMIT * SUBPIXEL;
                let (ddx, ddy) = scale_delta(a.pending_potions@, a.x_scale as int, a.y_scale as int, f1);
                let grows = due && a.pending_potions@.len() < 0x8000_0000 && (ddx > 0 || ddy > 0) && -lim
                    <= a.x <= lim && -lim <= a.y <= lim;
                let carves = grows && -CARVE_LIMIT <= pixel_of(b.x as int) <= CARVE_LIMIT
                    && -CARVE_LIMIT <= pixel_of(b.y as int) <= CARVE_LIMIT;
                assert(did_carve == carves);
                if carves {
                    assert(carved(st, t, dd, debris@, pixel_of(b.x as int), pixel_of(b.y as int), b.x_scale as int, b.y_scale as int));
                    assert(t == (Scene {
                        sprites: t.sprites,
                        collision_map: t.collision_map,
                        foreground_map: t.foreground_map,
                        tile_queue: t.tile_queue,
                        final_potion_triggered: f1,
                        ..st
                    }));
                } else {
                    assert(t == (Scene { sprites: t.sprites, final_potion_triggered: f1, ..st }));
                    assert(debris@ == dd);
                }
                assert(char_sized(st, *self, dd, debris@, cid as int, tick as int));
            }
        }
    }

    /// Runs the size-change countdown of every character; at expiry the
    /// pending potions fold into one change of scale, the character is
    /// rescaled in place, and growth carves the terrain around it. Debris
    /// thrown out is collected in `debris`.
    fn apply_size_changes(&mut self, tick: i64, debris: &mut Vec<Sprite>)
        requires
            old(self).wf(),
            0 < tick <= MAX_TICK,
            forall|i: int| 0 <= i < old(debris)@.len() ==> is_debris(#[trigger] old(debris)@[i]),
        ensures
            final(self).wf(),
            forall|i: int| 0 <= i < final(debris)@.len() ==> is_debris(#[trigger] final(debris)@[i]),
            final(self).sprites@.len() == old(self).sprites@.len(),
            final(self).characters == old(self).characters,
            final(self).particles == old(self).particles,
            final(self).score == old(self).score,
            final(self).done == old(self).done,
            final(self).end_sequence_triggered == old(self).end_sequence_triggered,
            old(self).final_potion_triggered ==> final(self).final_potion_triggered,
            queue_kept(old(self).tile_queue@, final(self).tile_queue@),
            sized_all(*old(self), *final(self), old(debris)@, final(debris)@, tick as int),
    {
        proof {
            assert(self.tile_queue@.subrange(0, self.tile_queue@.len() as int) =~= self.tile_queue@);
        }
        let ghost mut states: Seq<Scene> = seq![*self];
        let ghost mut ds: Seq<Seq<Sprite>> = seq![debris@];
        let mut c: usize = 0;
        while c < self.characters.len()
            invariant
                c <= self.characters@.len(),
                states.len() == c + 1 && ds.len() == c + 1,
                states[0] == *old(self) && ds[0] == old(debris)@,
                states[c as int] == *self && ds[c as int] == debris@,
                forall|k: int|
                    0 <= k < c ==> #[trigger] char_sized(
                        states[k],
                        states[k + 1],
                        ds[k],
                        ds[k + 1],
                        old(self).characters@[k] as int,
                        tick as int,
                    ),
                queue_kept(old(self).tile_queue@, self.tile_queue@),
                self.wf(),
                0 < tick <= MAX_TICK,
                forall|i: int| 0 <= i < debris@.len() ==> is_debris(#[trigger] debris@[i]),
                self.sprites@.len() == old(self).sprites@.len(),
                self.characters == old(self).characters,
                self.particles == old(self).particles,
                self.score == old(self).score,
                self.done == old(self).done,
                self.end_sequence_triggered == old(self).end_sequence_triggered,
                old(self).final_potion_triggered ==> self.final_potion_triggered,
            decreases self.characters@.len() - c,
        {
            let cid = self.characters[c];
            let ghost st = *self;
            let ghost dd = debris@;
            self.resize_character(cid, tick, debris);
            proof {
                lemma_queue_kept_trans(old(self).tile_queue@, st.tile_queue@, self.tile_queue@);
            }
            proof {
                states = states.push(*self);
                ds = ds.push(debris@);
                assert(char_sized(states[c as int], states[c + 1], ds[c as int], ds[c + 1], cid as int, tick as int));
            }
            c = c + 1;
        }
        proof {
            assert(sized_all(*old(self), *self, old(debris)@, debris@, tick as int));
        }
    }

    /// Advances the whole scene by one tick of `tick` microseconds: motion of
    /// every entity near the camera, particle settling, pickups, size
    /// changes with their carving, and finally the new debris joins the
    /// particles.
    pub fn step_physics(&mut self, cam_x: i32, cam_y: i32, camera_scale: u32, tick: i64)
        requires
            old(self).wf(),
            0 < tick <= MAX_TICK,
            camera_scale <= SCALE_LIMIT,
        ensures
            final(self).wf(),
            final(self).score >= old(self).score,
            old(self).done ==> final(self).done,
            old(self).end_sequence_triggered ==> final(self).end_sequence_triggered,
            old(self).final_potion_triggered ==> final(self).final_potion_triggered,
            final(self).characters == old(self).characters,
            queue_kept(old(self).tile_queue@, final(self).tile_queue@),
            final(self).sprites@.len() >= old(self).sprites@.len(),
            ticked(*old(self), *final(self), cam_x as int, cam_y as int, camera_scale as int, tick as int),
    {
        self.move_sprites(cam_x, cam_y, camera_scale, tick);
        let ghost a = *self;
        self.settle_particles();
        let ghost b = *self;
        self.consume_pickups();
        let ghost c = *self;
        let ghost settled = self.tile_queue@;
        let mut debris: Vec<Sprite> = Vec::new();
        self.apply_size_changes(tick, &mut debris);
        let ghost d = *self;
        let ghost dl = debris@;
        let ghost n = d.sprites@.len();
        let ghost np = d.particles@.len();
        proof {
            lemma_queue_kept_trans(old(self).tile_queue@, settled, self.tile_queue@);
        }
        while debris.len() > 0
            invariant
                queue_kept(old(self).tile_queue@, self.tile_queue@),
                self.sprites@.len() >= old(self).sprites@.len(),
                self.wf(),
                forall|j: int| 0 <= j < debris@.len() ==> is_debris(#[trigger] debris@[j]),
                self.score >= old(self).score,
                old(self).done ==> self.done,
                old(self).end_sequence_triggered ==> self.end_sequence_triggered,
                old(self).final_potion_triggered ==> self.final_potion_triggered,
                self.characters == old(self).characters,
                debris@.len() <= dl.len(),
                debris@ == dl.subrange(dl.len() - debris@.len(), dl.len() as int),
                self.sprites@.len() == n + (dl.len() - debris@.len()),
                self.sprites@.subrange(0, n as int) == d.sprites@,
                forall|i: int| 0 <= i < dl.len() - debris@.len() ==> #[trigger] self.sprites@[n + i] == Some(dl[i]),
                self.particles@.len() == np + (dl.len() - debris@.len()),
                self.particles@.subrange(0, np as int) == d.particles@,
                forall|i: int|
                    0 <= i < dl.len() - debris@.len() ==> #[trigger] self.particles@[np + i] == (n + i) as usize,
                *self == (Scene { sprites: self.sprites, particles: self.particles, ..d }),
            decreases debris@.len(),
        {
            let ghost before = debris@;
            let ghost sb = *self;
            let d = debris.remove(0);
            proof {
                assert(is_debris(before[0]));
                assert forall|j: int| 0 <= j < debris@.len() implies is_debris(#[trigger] debris@[j]) by {
                    assert(debris@[j] == before[j + 1]);
                }
            }
            self.add_particle(d);
            proof {
                assert(self.sprites@.subrange(0, n as int) =~= sb.sprites@.subrange(0, n as int));
                assert(self.particles@.subrange(0, np as int) =~= sb.particles@.subrange(0, np as int));
                assert(debris@ =~= dl.subrange(dl.len() - debris@.len(), dl.len() as int));
                assert(before[0] == dl[dl.len() - before.len()]);
            }
        }
        proof {
            assert(debris_joined(d, dl, *self));
            assert(ticked(*old(self), *self, cam_x as int, cam_y as int, camera_scale as int, tick as int));
        }
    }
}

} // verus!
