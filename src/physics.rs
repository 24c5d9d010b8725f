//! One fixed tick of motion for one entity: gravity, a vertical then a
//! horizontal sweep one world pixel at a time against the terrain and rubble
//! maps, ground contact, friction, the sleep timer, and the player's
//! corner-escape nudge.
use crate::collision_tree::CollisionTree;
use crate::geometry::{div_trunc, div_trunc_i64, lemma_div_trunc_bounds};
use crate::potion::{clamp, timer_ok, MAX_TICK};
use crate::sprite::{
    blocked_upto, cell_col, cell_hits, cell_origin, cell_row, coord_ok, pixel_of, placement_ok,
    probe, rubble_upto, Sprite, CELLS, PIXEL_LIMIT, SCALE_LIMIT, SPRITE_WIDTH, SUBPIXEL,
    VELOCITY_LIMIT,
};
use vstd::prelude::*;

verus! {

/// Vertical velocity gained per second, in `1 / SUBPIXEL` cells per tick.
pub const GRAVITY: i64 = 3482;

/// Horizontal velocity lost per second on the ground, in `1 / SUBPIXEL` cells per tick.
pub const FRICTION: i64 = 1024;

/// Microseconds per second.
pub const MICROS: i64 = 1000000;

impl Sprite {
    /// The ranges the simulation keeps an entity in.
    pub open spec fn wf(self) -> bool {
        &&& self.collider@.len() == CELLS
        &&& 1 <= self.x_scale <= SCALE_LIMIT
        &&& 1 <= self.y_scale <= SCALE_LIMIT
        &&& coord_ok(self.x as int)
        &&& coord_ok(self.y as int)
        &&& -VELOCITY_LIMIT <= self.vx <= VELOCITY_LIMIT
        &&& -VELOCITY_LIMIT <= self.vy <= VELOCITY_LIMIT
        &&& timer_ok(self.potion_timer)
        &&& 0 <= self.sleep_timer
    }
}

/// The collider of `s`, with its top-left corner at the fixed-point
/// position `(fx, fy)`, is blocked there: the position leaves the world
/// limits, or a solid cell meets terrain and not rubble.
pub open spec fn blocked_at(
    s: Sprite,
    terrain: CollisionTree,
    rubble: CollisionTree,
    fx: int,
    fy: int,
) -> bool {
    !coord_ok(fx) || !coord_ok(fy) || blocked_upto(
        s.collider@,
        CELLS as int,
        terrain,
        rubble,
        pixel_of(fx),
        pixel_of(fy),
        s.x_scale as int,
        s.y_scale as int,
    )
}

/// The collider of `s` at `(fx, fy)` lies within the world limits and a
/// solid cell meets rubble.
pub open spec fn rubble_at(s: Sprite, rubble: CollisionTree, fx: int, fy: int) -> bool {
    coord_ok(fx) && coord_ok(fy) && rubble_upto(
        s.collider@,
        CELLS as int,
        rubble,
        pixel_of(fx),
        pixel_of(fy),
        s.x_scale as int,
        s.y_scale as int,
    )
}

/// The fixed-point position `j` pixel steps from `s` along one axis.
pub open spec fn step_pos(s: Sprite, vertical: bool, j: int) -> (int, int) {
    if vertical {
        (s.x as int, s.y + j * SUBPIXEL)
    } else {
        (s.x + j * SUBPIXEL, s.y as int)
    }
}

/// What a sweep along one axis did.
pub struct Sweep {
    /// Whole pixels moved, counted without sign.
    pub moved: i64,
    /// The sweep stopped before the distance asked for.
    pub blocked: bool,
    /// Some position tested had a solid cell in rubble.
    pub in_rubble: bool,
}

/// Pixels that a velocity component moves an entity of the given scale in one tick.
pub open spec fn tick_distance(v: int, scale: int) -> int {
    div_trunc(v * scale, SUBPIXEL as int)
}

/// `1` for `v >= 0`, else `-1`.
pub open spec fn sign_of(v: int) -> int {
    if v >= 0 {
        1
    } else {
        -1
    }
}

impl Sprite {
    /// Moves up to `|d|` whole pixels along one axis, one pixel at a time,
    /// and stops before the first position at which the collider is blocked.
    pub fn sweep(
        &mut self,
        terrain: &CollisionTree,
        rubble: &CollisionTree,
        vertical: bool,
        d: i64,
    ) -> (r: Sweep)
        requires
            old(self).wf(),
            terrain.wf(),
            rubble.wf(),
            -0x1_0000_0000 <= d <= 0x1_0000_0000,
        ensures
            final(self).wf(),
            0 <= r.moved <= abs_int(d as int),
            (final(self).x as int, final(self).y as int) == step_pos(*old(self), vertical, sign_of(d as int) * r.moved),
            forall|j: int|
                1 <= j <= r.moved ==> !#[trigger] blocked_at(
                    *old(self),
                    *terrain,
                    *rubble,
                    step_pos(*old(self), vertical, sign_of(d as int) * j).0,
                    step_pos(*old(self), vertical, sign_of(d as int) * j).1,
                ),
            r.blocked == (r.moved < abs_int(d as int)),
            r.blocked ==> blocked_at(
                *old(self),
                *terrain,
                *rubble,
                step_pos(*old(self), vertical, sign_of(d as int) * (r.moved + 1)).0,
                step_pos(*old(self), vertical, sign_of(d as int) * (r.moved + 1)).1,
            ),
            r.in_rubble == exists|j: int|
                1 <= j <= r.moved + (if r.blocked {
                    1int
                } else {
                    0int
                }) && #[trigger] rubble_at(
                    *old(self),
                    *rubble,
                    step_pos(*old(self), vertical, sign_of(d as int) * j).0,
                    step_pos(*old(self), vertical, sign_of(d as int) * j).1,
                ),
            final(self).vx == old(self).vx && final(self).vy == old(self).vy,
            final(self).x_scale == old(self).x_scale && final(self).y_scale == old(self).y_scale,
            final(self).collider == old(self).collider,
            final(self).potion_timer == old(self).potion_timer,
            final(self).pending_potions == old(self).pending_potions,
            final(self).sleep_timer == old(self).sleep_timer,
            final(self).is_player == old(self).is_player,
            final(self).gravity == old(self).gravity,
            final(self).ground_contact == old(self).ground_contact,
            final(self).jumping == old(self).jumping,
            sweep_ok(*old(self), *terrain, *rubble, vertical, d as int, r),
            *final(self) == moved_to(*old(self), vertical, d as int, r.moved as int),
    {
        let ghost s0 = *self;
        let n: i64 = if d >= 0 {
            d
        } else {
            -d
        };
        let s: i64 = if d >= 0 {
            1
        } else {
            -1
        };
        let x0 = self.x;
        let y0 = self.y;
        let mut moved: i64 = 0;
        let mut blocked = false;
        let mut in_rubble = false;
        while moved < n && !blocked
            invariant
                s0.wf(),
                *self == s0,
                terrain.wf(),
                rubble.wf(),
                x0 == s0.x,
                y0 == s0.y,
                n == abs_int(d as int),
                s == sign_of(d as int),
                0 <= moved <= n <= 0x1_0000_0000,
                blocked ==> moved < n,
                forall|j: int|
                    1 <= j <= moved ==> !#[trigger] blocked_at(
                        s0,
                        *terrain,
                        *rubble,
                        step_pos(s0, vertical, s * j).0,
                        step_pos(s0, vertical, s * j).1,
                    ),
                blocked ==> blocked_at(
                    s0,
                    *terrain,
                    *rubble,
                    step_pos(s0, vertical, s * (moved + 1)).0,
                    step_pos(s0, vertical, s * (moved + 1)).1,
                ),
                in_rubble == exists|j: int|
                    1 <= j <= moved + (if blocked {
                        1int
                    } else {
                        0int
                    }) && #[trigger] rubble_at(
                        s0,
                        *rubble,
                        step_pos(s0, vertical, s * j).0,
                        step_pos(s0, vertical, s * j).1,
                    ),
            decreases n - moved + (if blocked { 0int } else { 1int }),
        {
            let ghost m0 = moved;
            let ghost r0 = in_rubble;
            let off = s * (moved + 1) * SUBPIXEL;
            let (nx, ny) = if vertical {
                (x0, y0 + off)
            } else {
                (x0 + off, y0)
            };
            let ghost pos = step_pos(s0, vertical, s * (moved + 1));
            assert(pos == (nx as int, ny as int)) by (nonlinear_arith)
                requires
                    off == s * (moved + 1) * SUBPIXEL,
                    pos == step_pos(s0, vertical, s * (moved + 1)),
                    vertical ==> nx == x0 && ny == y0 + off,
                    !vertical ==> nx == x0 + off && ny == y0,
                    x0 == s0.x,
                    y0 == s0.y,
            ;
            let lim = PIXEL_LIMIT * SUBPIXEL;
            if nx < -lim || nx > lim || ny < -lim || ny > lim {
                blocked = true;
                proof {
                    assert(!rubble_at(s0, *rubble, pos.0, pos.1));
                }
            } else {
                let px = div_trunc_i64(nx, SUBPIXEL);
                let py = div_trunc_i64(ny, SUBPIXEL);
                proof {
                    lemma_div_trunc_bounds(nx as int, SUBPIXEL as int);
                    lemma_div_trunc_bounds(ny as int, SUBPIXEL as int);
                    vstd::arithmetic::div_mod::lemma_div_is_ordered(abs_int(nx as int), lim as int, SUBPIXEL as int);
                    vstd::arithmetic::div_mod::lemma_div_is_ordered(abs_int(ny as int), lim as int, SUBPIXEL as int);
                    assert(lim as int / SUBPIXEL as int == PIXEL_LIMIT);
                }
                let p = probe(
                    &self.collider,
                    terrain,
                    rubble,
                    px as i32,
                    py as i32,
                    self.x_scale,
                    self.y_scale,
                );
                if p.in_rubble {
                    in_rubble = true;
                }
                if p.blocked {
                    blocked = true;
                } else {
                    moved = moved + 1;
                }
            }
            proof {
                let k = m0 + 1;
                if in_rubble {
                    if r0 {
                        let j = choose|j: int|
                            1 <= j <= m0 && #[trigger] rubble_at(
                                s0,
                                *rubble,
                                step_pos(s0, vertical, s * j).0,
                                step_pos(s0, vertical, s * j).1,
                            );
                        assert(1 <= j <= moved + (if blocked {
                            1int
                        } else {
                            0int
                        }));
                    } else {
                        assert(rubble_at(
                            s0,
                            *rubble,
                            step_pos(s0, vertical, s * k).0,
                            step_pos(s0, vertical, s * k).1,
                        ));
                    }
                } else {
                    assert forall|j: int|
                        1 <= j <= k implies !#[trigger] rubble_at(
                            s0,
                            *rubble,
                            step_pos(s0, vertical, s * j).0,
                            step_pos(s0, vertical, s * j).1,
                        ) by {
                        if j == k {
                        }
                    }
                }
            }
        }
        let total = s * moved * SUBPIXEL;
        assert(total == sign_of(d as int) * moved * SUBPIXEL) by (nonlinear_arith)
            requires
                total == s * moved * SUBPIXEL,
                s == sign_of(d as int),
        ;
        if vertical {
            self.y = y0 + total;
        } else {
            self.x = x0 + total;
        }
        proof {
            if moved > 0 {
                assert(!blocked_at(
                    s0,
                    *terrain,
                    *rubble,
                    step_pos(s0, vertical, s * moved).0,
                    step_pos(s0, vertical, s * moved).1,
                ));
            }
        }
        Sweep { moved, blocked, in_rubble }
    }
}

/// Sum over the first `n` cells of `c` placed at `(px, py)` of the votes of
/// solid cells that meet terrain and not rubble: `+1` on an axis for a cell
/// in the first nine columns (rows), `-1` for the others.
pub open spec fn crowd_upto(
    c: Seq<bool>,
    n: int,
    terrain: CollisionTree,
    rubble: CollisionTree,
    px: int,
    py: int,
    xs: int,
    ys: int,
) -> (int, int)
    decreases n,
{
    if n <= 0 {
        (0, 0)
    } else {
        let (a, b) = crowd_upto(c, n - 1, terrain, rubble, px, py, xs, ys);
        if c[n - 1] && !cell_hits(rubble, n - 1, px, py, xs, ys) && cell_hits(
            terrain,
            n - 1,
            px,
            py,
            xs,
            ys,
        ) {
            (
                a + if cell_col(n - 1) <= 8 {
                    1int
                } else {
                    -1int
                },
                b + if cell_row(n - 1) <= 8 {
                    1int
                } else {
                    -1int
                },
            )
        } else {
            (a, b)
        }
    }
}

proof fn lemma_crowd_bounds(
    c: Seq<bool>,
    n: int,
    terrain: CollisionTree,
    rubble: CollisionTree,
    px: int,
    py: int,
    xs: int,
    ys: int,
)
    requires
        0 <= n,
    ensures
        -n <= crowd_upto(c, n, terrain, rubble, px, py, xs, ys).0 <= n,
        -n <= crowd_upto(c, n, terrain, rubble, px, py, xs, ys).1 <= n,
    decreases n,
{
    if n > 0 {
        lemma_crowd_bounds(c, n - 1, terrain, rubble, px, py, xs, ys);
    }
}

/// The crowd direction of collider `c` placed at `(px, py)`, as `crowd_upto`
/// states it over all cells.
pub fn crowd_direction(
    c: &Vec<bool>,
    terrain: &CollisionTree,
    rubble: &CollisionTree,
    px: i32,
    py: i32,
    xs: u32,
    ys: u32,
) -> (r: (i32, i32))
    requires
        c@.len() == CELLS,
        terrain.wf(),
        rubble.wf(),
        placement_ok(px as int, py as int, xs as int, ys as int),
    ensures
        (r.0 as int, r.1 as int) == crowd_upto(c@, CELLS as int, *terrain, *rubble, px as int, py as int, xs as int, ys as int),
{
    let mut a: i32 = 0;
    let mut b: i32 = 0;
    let mut i: usize = 0;
    while i < CELLS
        invariant
            i <= CELLS,
            c@.len() == CELLS,
            terrain.wf(),
            rubble.wf(),
            placement_ok(px as int, py as int, xs as int, ys as int),
            (a as int, b as int) == crowd_upto(c@, i as int, *terrain, *rubble, px as int, py as int, xs as int, ys as int),
        decreases CELLS - i,
    {
        proof {
            lemma_crowd_bounds(c@, i as int, *terrain, *rubble, px as int, py as int, xs as int, ys as int);
        }
        if c[i] {
            let (rx, ry) = cell_origin(i, px, py, xs, ys);
            if !rubble.check_rect(rx, ry, xs, ys) && terrain.check_rect(rx, ry, xs, ys) {
                if i % SPRITE_WIDTH <= 8 {
                    a = a + 1;
                } else {
                    a = a - 1;
                }
                if i / SPRITE_WIDTH <= 8 {
                    b = b + 1;
                } else {
                    b = b - 1;
                }
            }
        }
        i = i + 1;
    }
    (a, b)
}

/// Velocity change over `tick` microseconds at `rate` per second.
pub open spec fn gain(rate: int, tick: int) -> int {
    rate * tick / MICROS as int
}

/// The report `r` of a sweep of `|d|` pixels from `s` along one axis, as
/// `Sprite::sweep` states it: it moved `r.moved` pixels, none of them into a
/// blocked position, and stopped early exactly when the next position was blocked.
pub open spec fn sweep_ok(
    s: Sprite,
    terrain: CollisionTree,
    rubble: CollisionTree,
    vertical: bool,
    d: int,
    r: Sweep,
) -> bool {
    &&& 0 <= r.moved <= abs_int(d)
    &&& forall|j: int|
        1 <= j <= r.moved ==> !#[trigger] blocked_at(
            s,
            terrain,
            rubble,
            step_pos(s, vertical, sign_of(d) * j).0,
            step_pos(s, vertical, sign_of(d) * j).1,
        )
    &&& r.blocked == (r.moved < abs_int(d))
    &&& r.blocked ==> blocked_at(
        s,
        terrain,
        rubble,
        step_pos(s, vertical, sign_of(d) * (r.moved + 1)).0,
        step_pos(s, vertical, sign_of(d) * (r.moved + 1)).1,
    )
    &&& r.in_rubble == exists|j: int|
        1 <= j <= r.moved + (if r.blocked {
            1int
        } else {
            0int
        }) && #[trigger] rubble_at(
            s,
            rubble,
            step_pos(s, vertical, sign_of(d) * j).0,
            step_pos(s, vertical, sign_of(d) * j).1,
        )
}

/// `s` moved `moved` pixels along one axis in the direction of `d`.
pub open spec fn moved_to(s: Sprite, vertical: bool, d: int, moved: int) -> Sprite {
    let p = step_pos(s, vertical, sign_of(d) * moved);
    Sprite { x: p.0 as i64, y: p.1 as i64, ..s }
}

/// `s` after a tick of gravity, as `Sprite::apply_gravity` states it.
pub open spec fn gravity_applied(s: Sprite, tick: int) -> Sprite {
    Sprite {
        vy: (if s.gravity {
            clamp(s.vy + gain(GRAVITY as int, tick), -VELOCITY_LIMIT as int, VELOCITY_LIMIT as int)
        } else {
            s.vy as int
        }) as i64,
        ..s
    }
}

/// `s` after contacts, friction and the sleep timer, as
/// `Sprite::settle_contacts` states it.
pub open spec fn contacts_applied(s: Sprite, blocked_y: bool, falling: bool, tick: int) -> Sprite {
    let vy = if blocked_y {
        0
    } else {
        s.vy as int
    };
    let ground = if blocked_y {
        falling || s.ground_contact
    } else {
        s.ground_contact && abs_int(s.vy as int) < SUBPIXEL
    };
    let vx = if ground {
        if s.vx >= 0 {
            clamp(s.vx - gain(FRICTION as int, tick), 0, VELOCITY_LIMIT as int)
        } else {
            clamp(s.vx + gain(FRICTION as int, tick), -VELOCITY_LIMIT as int, 0)
        }
    } else {
        s.vx as int
    };
    let sleep = if abs_int(vx) > SUBPIXEL || abs_int(vy) > SUBPIXEL {
        0
    } else {
        clamp(s.sleep_timer + tick, 0, i64::MAX as int)
    };
    Sprite {
        vx: vx as i64,
        vy: vy as i64,
        ground_contact: ground,
        jumping: s.jumping && !(blocked_y && falling),
        sleep_timer: sleep as i64,
        ..s
    }
}

/// `s` after the corner-escape nudge, as `Sprite::escape_corners` states it.
pub open spec fn escaped(s: Sprite, terrain: CollisionTree, rubble: CollisionTree) -> Sprite {
    let dir = crowd_upto(
        s.collider@,
        CELLS as int,
        terrain,
        rubble,
        pixel_of(s.x as int),
        pixel_of(s.y as int),
        s.x_scale as int,
        s.y_scale as int,
    );
    let nx = s.x + clamp(dir.0, -1, 1) * s.x_scale * SUBPIXEL;
    let ny = s.y + clamp(dir.1, -1, 1) * s.y_scale * SUBPIXEL;
    Sprite {
        x: (if coord_ok(nx) {
            nx
        } else {
            s.x as int
        }) as i64,
        y: (if coord_ok(ny) {
            ny
        } else {
            s.y as int
        }) as i64,
        ..s
    }
}

/// `s1` is `s0` after one tick of `tick` microseconds that reported `r`:
/// gravity, the vertical sweep, the horizontal sweep, contacts, and for the
/// player the corner-escape nudge.
pub open spec fn stepped(
    s0: Sprite,
    s1: Sprite,
    terrain: CollisionTree,
    rubble: CollisionTree,
    tick: int,
    r: StepReport,
) -> bool {
    let g = gravity_applied(s0, tick);
    let dy = tick_distance(g.vy as int, g.y_scale as int);
    let dx = tick_distance(g.vx as int, g.x_scale as int);
    let v = moved_to(g, true, dy, r.vertical.moved as int);
    let h = moved_to(v, false, dx, r.horizontal.moved as int);
    let c = contacts_applied(h, r.vertical.blocked, r.falling, tick);
    &&& r.falling == (g.vy > 0)
    &&& sweep_ok(g, terrain, rubble, true, dy, r.vertical)
    &&& sweep_ok(v, terrain, rubble, false, dx, r.horizontal)
    &&& r.in_rubble == (r.vertical.in_rubble || r.horizontal.in_rubble)
    &&& s1 == if g.is_player {
        escaped(c, terrain, rubble)
    } else {
        c
    }
}

/// What one tick did to an entity.
pub struct StepReport {
    /// The vertical velocity was downward when the sweep began.
    pub falling: bool,
    pub vertical: Sweep,
    pub horizontal: Sweep,
    /// Some position tested by either sweep had a solid cell in rubble.
    pub in_rubble: bool,
}

impl Sprite {
    /// Adds a tick of gravity to the vertical velocity when gravity is on.
    pub fn apply_gravity(&mut self, tick: i64)
        requires
            old(self).wf(),
            0 < tick <= MAX_TICK,
        ensures
            final(self).wf(),
            final(self).vy == if old(self).gravity {
                clamp(old(self).vy + gain(GRAVITY as int, tick as int), -VELOCITY_LIMIT as int, VELOCITY_LIMIT as int)
            } else {
                old(self).vy as int
            },
            *final(self) == (Sprite { vy: final(self).vy, ..*old(self) }),
    {
        if self.gravity {
            let g = GRAVITY * tick / MICROS;
            let v = self.vy + g;
            self.vy = if v > VELOCITY_LIMIT {
                VELOCITY_LIMIT
            } else {
                v
            };
        }
    }

    /// Pixels the current velocity moves the entity this tick, per axis.
    pub fn tick_distances(&self) -> (r: (i64, i64))
        requires
            self.wf(),
        ensures
            r.0 == tick_distance(self.vx as int, self.x_scale as int),
            r.1 == tick_distance(self.vy as int, self.y_scale as int),
            -0x1_0000_0000 <= r.0 <= 0x1_0000_0000,
            -0x1_0000_0000 <= r.1 <= 0x1_0000_0000,
    {
        proof {
            assert(-VELOCITY_LIMIT * SCALE_LIMIT <= self.vx * self.x_scale <= VELOCITY_LIMIT * SCALE_LIMIT) by (nonlinear_arith)
                requires
                    -VELOCITY_LIMIT <= self.vx <= VELOCITY_LIMIT,
                    1 <= self.x_scale <= SCALE_LIMIT,
            ;
            assert(-VELOCITY_LIMIT * SCALE_LIMIT <= self.vy * self.y_scale <= VELOCITY_LIMIT * SCALE_LIMIT) by (nonlinear_arith)
                requires
                    -VELOCITY_LIMIT <= self.vy <= VELOCITY_LIMIT,
                    1 <= self.y_scale <= SCALE_LIMIT,
            ;
            lemma_div_trunc_bounds(self.vx * self.x_scale, SUBPIXEL as int);
            lemma_div_trunc_bounds(self.vy * self.y_scale, SUBPIXEL as int);
            let lim = VELOCITY_LIMIT * SCALE_LIMIT;
            vstd::arithmetic::div_mod::lemma_div_is_ordered(abs_int(self.vx * self.x_scale), lim, SUBPIXEL as int);
            vstd::arithmetic::div_mod::lemma_div_is_ordered(abs_int(self.vy * self.y_scale), lim, SUBPIXEL as int);
        }
        let dx = div_trunc_i64(self.vx * self.x_scale as i64, SUBPIXEL);
        let dy = div_trunc_i64(self.vy * self.y_scale as i64, SUBPIXEL);
        (dx, dy)
    }

    /// Updates ground contact, vertical velocity, friction and the sleep
    /// timer after the sweeps.
    pub fn settle_contacts(&mut self, blocked_y: bool, falling: bool, tick: i64)
        requires
            old(self).wf(),
            0 < tick <= MAX_TICK,
        ensures
            final(self).wf(),
            final(self).vy == if blocked_y {
                0
            } else {
                old(self).vy
            },
            final(self).ground_contact == if blocked_y {
                falling || old(self).ground_contact
            } else {
                old(self).ground_contact && abs_int(old(self).vy as int) < SUBPIXEL
            },
            final(self).jumping == (old(self).jumping && !(blocked_y && falling)),
            final(self).vx == if final(self).ground_contact {
                if old(self).vx >= 0 {
                    clamp(old(self).vx - gain(FRICTION as int, tick as int), 0, VELOCITY_LIMIT as int)
                } else {
                    clamp(old(self).vx + gain(FRICTION as int, tick as int), -VELOCITY_LIMIT as int, 0)
                }
            } else {
                old(self).vx as int
            },
            final(self).sleep_timer == if abs_int(final(self).vx as int) > SUBPIXEL || abs_int(
                final(self).vy as int,
            ) > SUBPIXEL {
                0
            } else {
                clamp(old(self).sleep_timer + tick, 0, i64::MAX as int)
            },
            *final(self) == (Sprite {
                vx: final(self).vx,
                vy: final(self).vy,
                ground_contact: final(self).ground_contact,
                jumping: final(self).jumping,
                sleep_timer: final(self).sleep_timer,
                ..*old(self)
            }),
    {
        if !blocked_y {
            if self.vy >= SUBPIXEL || self.vy <= -SUBPIXEL {
                self.ground_contact = false;
            }
        } else {
            if falling {
                self.ground_contact = true;
                self.jumping = false;
            }
            self.vy = 0;
        }
        if self.ground_contact {
            let f = FRICTION * tick / MICROS;
            if self.vx >= 0 {
                let v = self.vx - f;
                self.vx = if v < 0 {
                    0
                } else {
                    v
                };
            } else {
                let v = self.vx + f;
                self.vx = if v > 0 {
                    0
                } else {
                    v
                };
            }
        }
        if self.vx > SUBPIXEL || self.vx < -SUBPIXEL || self.vy > SUBPIXEL || self.vy < -SUBPIXEL {
            self.sleep_timer = 0;
        } else if self.sleep_timer <= i64::MAX - tick {
            self.sleep_timer = self.sleep_timer + tick;
        } else {
            self.sleep_timer = i64::MAX;
        }
    }

    /// Top-left world pixel of the entity.
    pub fn pixel_pos(&self) -> (r: (i32, i32))
        requires
            self.wf(),
        ensures
            r.0 == pixel_of(self.x as int),
            r.1 == pixel_of(self.y as int),
            placement_ok(r.0 as int, r.1 as int, self.x_scale as int, self.y_scale as int),
    {
        let lim = PIXEL_LIMIT * SUBPIXEL;
        proof {
            lemma_div_trunc_bounds(self.x as int, SUBPIXEL as int);
            lemma_div_trunc_bounds(self.y as int, SUBPIXEL as int);
            vstd::arithmetic::div_mod::lemma_div_is_ordered(abs_int(self.x as int), lim as int, SUBPIXEL as int);
            vstd::arithmetic::div_mod::lemma_div_is_ordered(abs_int(self.y as int), lim as int, SUBPIXEL as int);
            assert(lim as int / SUBPIXEL as int == PIXEL_LIMIT);
        }
        let px = div_trunc_i64(self.x, SUBPIXEL);
        let py = div_trunc_i64(self.y, SUBPIXEL);
        (px as i32, py as i32)
    }

    /// Moves the entity one scaled pixel on each axis against the clamped
    /// crowd direction of its cells that are stuck in terrain, where the
    /// move stays within the world limits.
    pub fn escape_corners(&mut self, terrain: &CollisionTree, rubble: &CollisionTree)
        requires
            old(self).wf(),
            terrain.wf(),
            rubble.wf(),
        ensures
            final(self).wf(),
            ({
                let dir = crowd_upto(
                    old(self).collider@,
                    CELLS as int,
                    *terrain,
                    *rubble,
                    pixel_of(old(self).x as int),
                    pixel_of(old(self).y as int),
                    old(self).x_scale as int,
                    old(self).y_scale as int,
                );
                let nx = old(self).x + clamp(dir.0, -1, 1) * old(self).x_scale * SUBPIXEL;
                let ny = old(self).y + clamp(dir.1, -1, 1) * old(self).y_scale * SUBPIXEL;
                &&& final(self).x == if coord_ok(nx) {
                    nx
                } else {
                    old(self).x as int
                }
                &&& final(self).y == if coord_ok(ny) {
                    ny
                } else {
                    old(self).y as int
                }
            }),
            *final(self) == (Sprite { x: final(self).x, y: final(self).y, ..*old(self) }),
    {
        let (px, py) = self.pixel_pos();
        let (a, b) = crowd_direction(
            &self.collider,
            terrain,
            rubble,
            px,
            py,
            self.x_scale,
            self.y_scale,
        );
        let ca: i64 = if a > 0 {
            1
        } else if a < 0 {
            -1
        } else {
            0
        };
        let cb: i64 = if b > 0 {
            1
        } else if b < 0 {
            -1
        } else {
            0
        };
        let lim = PIXEL_LIMIT * SUBPIXEL;
        let sx = self.x_scale as i64 * SUBPIXEL;
        let sy = self.y_scale as i64 * SUBPIXEL;
        let nx = if ca > 0 {
            self.x + sx
        } else if ca < 0 {
            self.x - sx
        } else {
            self.x
        };
        let ny = if cb > 0 {
            self.y + sy
        } else if cb < 0 {
            self.y - sy
        } else {
            self.y
        };
        assert(nx == self.x + ca * self.x_scale * SUBPIXEL) by (nonlinear_arith)
            requires
                sx == self.x_scale * SUBPIXEL,
                ca > 0 ==> ca == 1 && nx == self.x + sx,
                ca < 0 ==> ca == -1 && nx == self.x - sx,
                ca == 0 ==> nx == self.x,
        ;
        assert(ny == self.y + cb * self.y_scale * SUBPIXEL) by (nonlinear_arith)
            requires
                sy == self.y_scale * SUBPIXEL,
                cb > 0 ==> cb == 1 && ny == self.y + sy,
                cb < 0 ==> cb == -1 && ny == self.y - sy,
                cb == 0 ==> ny == self.y,
        ;
        if -lim <= nx && nx <= lim {
            self.x = nx;
        }
        if -lim <= ny && ny <= lim {
            self.y = ny;
        }
    }

    /// Advances the entity one tick of `tick` microseconds: gravity, the
    /// vertical sweep, the horizontal sweep, contacts and friction, the sleep
    /// timer, and for the player the corner-escape nudge.
    pub fn step(&mut self, terrain: &CollisionTree, rubble: &CollisionTree, tick: i64) -> (r:
        StepReport)
        requires
            old(self).wf(),
            terrain.wf(),
            rubble.wf(),
            0 < tick <= MAX_TICK,
        ensures
            final(self).wf(),
            r.in_rubble == (r.vertical.in_rubble || r.horizontal.in_rubble),
            r.vertical.blocked ==> final(self).vy == 0,
            r.vertical.blocked && r.falling ==> final(self).ground_contact && !final(self).jumping,
            !r.vertical.blocked && !old(self).ground_contact ==> !final(self).ground_contact,
            r.falling == (if old(self).gravity {
                clamp(old(self).vy + gain(GRAVITY as int, tick as int), -VELOCITY_LIMIT as int, VELOCITY_LIMIT as int)
            } else {
                old(self).vy as int
            } > 0),
            !final(self).is_player ==> final(self).y == old(self).y + sign_of(tick_distance(
                if old(self).gravity {
                    clamp(old(self).vy + gain(GRAVITY as int, tick as int), -VELOCITY_LIMIT as int, VELOCITY_LIMIT as int)
                } else {
                    old(self).vy as int
                },
                old(self).y_scale as int,
            )) * r.vertical.moved * SUBPIXEL,
            final(self).collider == old(self).collider,
            final(self).x_scale == old(self).x_scale && final(self).y_scale == old(self).y_scale,
            final(self).is_player == old(self).is_player,
            final(self).gravity == old(self).gravity,
            final(self).potion_timer == old(self).potion_timer,
            final(self).pending_potions == old(self).pending_potions,
            stepped(*old(self), *final(self), *terrain, *rubble, tick as int, r),
    {
        self.apply_gravity(tick);
        let ghost g = *self;
        assert(g == gravity_applied(*old(self), tick as int));
        let falling = self.vy > 0;
        let (dx, dy) = self.tick_distances();
        let vertical = self.sweep(terrain, rubble, true, dy);
        let horizontal = self.sweep(terrain, rubble, false, dx);
        let ghost h = *self;
        self.settle_contacts(vertical.blocked, falling, tick);
        let ghost c = *self;
        assert(c == contacts_applied(h, vertical.blocked, falling, tick as int));
        if self.is_player {
            self.escape_corners(terrain, rubble);
            assert(*self == escaped(c, *terrain, *rubble));
        }
        let in_rubble = vertical.in_rubble || horizontal.in_rubble;
        StepReport { falling, vertical, horizontal, in_rubble }
    }
}

pub open spec fn abs_int(v: int) -> int {
    if v >= 0 {
        v
    } else {
        -v
    }
}

} // verus!
