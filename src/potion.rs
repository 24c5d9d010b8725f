//! Size changes: potions queue scale deltas on a character, a countdown
//! runs, and at expiry the queued deltas fold into one change of scale.
use crate::sprite::{PotionType, Sprite, MAX_SCALE, SCALE_LIMIT, SPRITE_WIDTH, SUBPIXEL};
use vstd::prelude::*;

verus! {

/// Microseconds between the first pending potion and the size change.
pub const SCALE_CHANGE_TIMEOUT: i64 = 1000000;

/// Longest tick accepted, in microseconds.
pub const MAX_TICK: i64 = 1000000;

/// Scale change forced on both axes once the finale has started.
pub const FINAL_GROWTH: i32 = 20;

/// Scales reached by folding `potions`, left to right, into `(xs, ys)`:
/// relative deltas add, absolute values replace.
pub open spec fn fold_potions(potions: Seq<PotionType>, xs: int, ys: int) -> (int, int)
    decreases potions.len(),
{
    if potions.len() == 0 {
        (xs, ys)
    } else {
        let (x0, y0) = fold_potions(potions.drop_last(), xs, ys);
        match potions.last() {
            PotionType::Relative(dx, dy) => (x0 + dx, y0 + dy),
            PotionType::Absolute(ax, ay) => (
                match ax {
                    Some(v) => v as int,
                    None => x0,
                },
                match ay {
                    Some(v) => v as int,
                    None => y0,
                },
            ),
        }
    }
}

pub open spec fn clamp(v: int, lo: int, hi: int) -> int {
    if v < lo {
        lo
    } else if v > hi {
        hi
    } else {
        v
    }
}

/// The change of scale on each axis that folding `potions` into the scales
/// `(xs, ys)` asks for: the folded scale clamped to `[0, MAX_SCALE]`, minus
/// the current one; or `FINAL_GROWTH` on both axes once the finale started.
pub open spec fn scale_delta(potions: Seq<PotionType>, xs: int, ys: int, finale: bool) -> (int, int) {
    if finale {
        (FINAL_GROWTH as int, FINAL_GROWTH as int)
    } else {
        let (fx, fy) = fold_potions(potions, xs, ys);
        (clamp(fx, 0, MAX_SCALE as int) - xs, clamp(fy, 0, MAX_SCALE as int) - ys)
    }
}

proof fn lemma_fold_bounds(potions: Seq<PotionType>, xs: int, ys: int)
    requires
        -0x8000_0000 <= xs < 0x8000_0000,
        -0x8000_0000 <= ys < 0x8000_0000,
    ensures
        ({
            let (fx, fy) = fold_potions(potions, xs, ys);
            let b = 0x8000_0000 * (potions.len() + 1);
            -b <= fx <= b && -b <= fy <= b
        }),
    decreases potions.len(),
{
    if potions.len() > 0 {
        lemma_fold_bounds(potions.drop_last(), xs, ys);
    }
}

/// Folds `potions`, left to right, into the scales `(xs, ys)`.
pub fn fold_pending(potions: &Vec<PotionType>, xs: i32, ys: i32) -> (r: (i64, i64))
    requires
        potions@.len() < 0x8000_0000,
    ensures
        r.0 == fold_potions(potions@, xs as int, ys as int).0,
        r.1 == fold_potions(potions@, xs as int, ys as int).1,
{
    let mut fx: i64 = xs as i64;
    let mut fy: i64 = ys as i64;
    let mut i: usize = 0;
    while i < potions.len()
        invariant
            i <= potions@.len() < 0x8000_0000,
            (fx as int, fy as int) == fold_potions(potions@.subrange(0, i as int), xs as int, ys as int),
        decreases potions@.len() - i,
    {
        proof {
            lemma_fold_bounds(potions@.subrange(0, i as int), xs as int, ys as int);
            assert(potions@.subrange(0, i + 1).drop_last() =~= potions@.subrange(0, i as int));
        }
        match potions[i] {
            PotionType::Relative(dx, dy) => {
                fx = fx + dx as i64;
                fy = fy + dy as i64;
            },
            PotionType::Absolute(ax, ay) => {
                if let Some(v) = ax {
                    fx = v as i64;
                }
                if let Some(v) = ay {
                    fy = v as i64;
                }
            },
        }
        i = i + 1;
    }
    proof {
        assert(potions@.subrange(0, i as int) =~= potions@);
    }
    (fx, fy)
}

fn clamp_i64(v: i64, lo: i64, hi: i64) -> (r: i64)
    requires
        lo <= hi,
    ensures
        r == clamp(v as int, lo as int, hi as int),
{
    if v < lo {
        lo
    } else if v > hi {
        hi
    } else {
        v
    }
}

/// A sprite's scales, position and timers within the ranges the physics keeps.
pub open spec fn timer_ok(t: Option<i64>) -> bool {
    match t {
        Some(v) => -2 * SCALE_CHANGE_TIMEOUT <= v <= SCALE_CHANGE_TIMEOUT,
        None => true,
    }
}

impl Sprite {
    /// Queues a potion's size change and starts the countdown, or restarts
    /// it when it has already run out; a running countdown is left as it is.
    pub fn drink(&mut self, potion: PotionType)
        requires
            timer_ok(old(self).potion_timer),
        ensures
            final(self).pending_potions@ == old(self).pending_potions@.push(potion),
            final(self).potion_timer == match old(self).potion_timer {
                Some(t) if t > 0 => Some(t),
                _ => Some(SCALE_CHANGE_TIMEOUT),
            },
            timer_ok(final(self).potion_timer),
            *final(self) == (Sprite {
                potion_timer: final(self).potion_timer,
                pending_potions: final(self).pending_potions,
                ..*old(self)
            }),
    {
        let t = match self.potion_timer {
            Some(t) => if t <= 0 {
                SCALE_CHANGE_TIMEOUT
            } else {
                t
            },
            None => SCALE_CHANGE_TIMEOUT,
        };
        self.potion_timer = Some(t);
        self.pending_potions.push(potion);
    }

    /// Advances the countdown by `tick` microseconds. Returns whether the
    /// pending size change applies this tick: the countdown ran out, or the
    /// finale is running. A countdown more than one timeout past zero is dropped.
    pub fn advance_potion_timer(&mut self, tick: i64, finale: bool) -> (due: bool)
        requires
            0 < tick <= MAX_TICK,
            timer_ok(old(self).potion_timer),
        ensures
            timer_ok(final(self).potion_timer),
            due == match old(self).potion_timer {
                Some(t) => t - tick <= 0 || finale,
                None => false,
            },
            final(self).potion_timer == match old(self).potion_timer {
                Some(t) => if t - tick < -SCALE_CHANGE_TIMEOUT && (t - tick <= 0 || finale) {
                    None
                } else {
                    Some((t - tick) as i64)
                },
                None => None,
            },
            *final(self) == (Sprite { potion_timer: final(self).potion_timer, ..*old(self) }),
    {
        match self.potion_timer {
            Some(t) => {
                let left = t - tick;
                self.potion_timer = Some(left);
                if left > 0 && !finale {
                    return false;
                }
                if left < -SCALE_CHANGE_TIMEOUT {
                    self.potion_timer = None;
                }
                true
            },
            None => false,
        }
    }

    /// Empties the pending potions and returns the change of scale they ask
    /// for, as `scale_delta` states it.
    pub fn take_scale_delta(&mut self, finale: bool) -> (r: (i32, i32))
        requires
            old(self).pending_potions@.len() < 0x8000_0000,
            old(self).x_scale <= SCALE_LIMIT,
            old(self).y_scale <= SCALE_LIMIT,
        ensures
            r.0 == scale_delta(old(self).pending_potions@, old(self).x_scale as int, old(self).y_scale as int, finale).0,
            r.1 == scale_delta(old(self).pending_potions@, old(self).x_scale as int, old(self).y_scale as int, finale).1,
            final(self).pending_potions@.len() == 0,
            *final(self) == (Sprite { pending_potions: final(self).pending_potions, ..*old(self) }),
    {
        let (fx, fy) = fold_pending(&self.pending_potions, self.x_scale as i32, self.y_scale as i32);
        self.pending_potions = Vec::new();
        if finale {
            (FINAL_GROWTH, FINAL_GROWTH)
        } else {
            let cx = clamp_i64(fx, 0, MAX_SCALE as i64);
            let cy = clamp_i64(fy, 0, MAX_SCALE as i64);
            ((cx - self.x_scale as i64) as i32, (cy - self.y_scale as i64) as i32)
        }
    }

    /// Changes the scales by `(dx, dy)`, each clamped to `[1, MAX_SCALE]`, and
    /// moves the sprite so that it stays centred horizontally and its bottom
    /// edge stays where it was.
    pub fn apply_scale_delta(&mut self, dx: i32, dy: i32)
        requires
            1 <= old(self).x_scale <= SCALE_LIMIT,
            1 <= old(self).y_scale <= SCALE_LIMIT,
            -0x1000_0000_0000 <= old(self).x <= 0x1000_0000_0000,
            -0x1000_0000_0000 <= old(self).y <= 0x1000_0000_0000,
        ensures
            final(self).x_scale == clamp(old(self).x_scale + dx, 1, MAX_SCALE as int),
            final(self).y_scale == clamp(old(self).y_scale + dy, 1, MAX_SCALE as int),
            2 * final(self).x + SPRITE_WIDTH * SUBPIXEL * final(self).x_scale == 2 * old(self).x
                + SPRITE_WIDTH * SUBPIXEL * old(self).x_scale,
            final(self).y + SPRITE_WIDTH * SUBPIXEL * final(self).y_scale == old(self).y
                + SPRITE_WIDTH * SUBPIXEL * old(self).y_scale,
            *final(self) == (Sprite {
                x: final(self).x,
                y: final(self).y,
                x_scale: final(self).x_scale,
                y_scale: final(self).y_scale,
                ..*old(self)
            }),            final(self).x == old(self).x - 8 * SUBPIXEL * (final(self).x_scale - old(self).x_scale),
            final(self).y == old(self).y - 16 * SUBPIXEL * (final(self).y_scale - old(self).y_scale),
    {
        let old_xs = self.x_scale as i64;
        let old_ys = self.y_scale as i64;
        let nx = clamp_i64(old_xs + dx as i64, 1, MAX_SCALE as i64);
        let ny = clamp_i64(old_ys + dy as i64, 1, MAX_SCALE as i64);
        self.x_scale = nx as u32;
        self.y_scale = ny as u32;
        // half the change of width, so that the centre stays in place
        self.x = self.x - 8 * SUBPIXEL * (nx - old_xs);
        self.y = self.y - (SPRITE_WIDTH as i64) * SUBPIXEL * (ny - old_ys);
    }
}

} // verus!
