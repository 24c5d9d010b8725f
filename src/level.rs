//! Level material: colliders cut from a sprite sheet, mirrored and split
//! copies of entities, and terrain chunks waiting to be indexed.
use crate::physics::abs_int;
use crate::sprite::{PotionType, Sprite, CELLS, PIXEL_LIMIT, SCALE_LIMIT, SPRITE_WIDTH, SUBPIXEL};
use vstd::prelude::*;

verus! {

/// A decoded sprite sheet: `width * height` pixels, four bytes each (RGBA),
/// row-major.
pub struct SpriteSheet {
    pub width: u32,
    pub height: u32,
    pub rgba: Vec<u8>,
}

impl SpriteSheet {
    pub open spec fn wf(&self) -> bool {
        self.rgba@.len() == 4 * self.width * self.height
    }

    /// Byte index of the alpha channel of pixel `(x, y)`.
    pub open spec fn alpha_index(&self, x: int, y: int) -> int {
        4 * (x + y * self.width) + 3
    }
}

/// The collider of sprite `(tx, ty)` of the sheet: a cell is solid where its
/// pixel is not fully transparent.
pub fn extract_sprite(sheet: &SpriteSheet, tx: u32, ty: u32) -> (c: Vec<bool>)
    requires
        sheet.wf(),
        (tx + 1) * 16 <= sheet.width,
        (ty + 1) * 16 <= sheet.height,
    ensures
        c@.len() == CELLS,
        forall|dx: int, dy: int|
            0 <= dx < 16 && 0 <= dy < 16 ==> #[trigger] c@[dx + 16 * dy] == (sheet.rgba@[sheet.alpha_index(
                tx * 16 + dx,
                ty * 16 + dy,
            )] > 0),
{
    let mut c: Vec<bool> = Vec::new();
    let n = sheet.rgba.len();
    let mut i: usize = 0;
    while i < CELLS
        invariant
            sheet.wf(),
            n == sheet.rgba@.len(),
            (tx + 1) * 16 <= sheet.width,
            (ty + 1) * 16 <= sheet.height,
            i <= CELLS,
            c@.len() == i,
            forall|j: int|
                0 <= j < i ==> #[trigger] c@[j] == (sheet.rgba@[sheet.alpha_index(
                    tx * 16 + j % 16,
                    ty * 16 + j / 16,
                )] > 0),
        decreases CELLS - i,
    {
        let dx = (i % SPRITE_WIDTH) as u64;
        let dy = (i / SPRITE_WIDTH) as u64;
        let x = tx as u64 * 16 + dx;
        let y = ty as u64 * 16 + dy;
        proof {
            let w = sheet.width as int;
            let h = sheet.height as int;
            assert(0 <= x < w && 0 <= y < h);
            assert(x + y * w <= (w - 1) + (h - 1) * w) by (nonlinear_arith)
                requires
                    0 <= x < w,
                    0 <= y < h,
            ;
            assert((w - 1) + (h - 1) * w == w * h - 1) by (nonlinear_arith);
            assert(4 * (w * h) == sheet.rgba@.len()) by (nonlinear_arith)
                requires
                    sheet.rgba@.len() == 4 * sheet.width * sheet.height,
                    w == sheet.width,
                    h == sheet.height,
            ;
            assert(n <= usize::MAX);
            assert(y * w <= w * h) by (nonlinear_arith)
                requires
                    0 <= y < h,
                    0 <= w,
            ;
        }
        let k = (4 * (x + y * sheet.width as u64) + 3) as usize;
        c.push(sheet.rgba[k] > 0);
        i = i + 1;
    }
    proof {
        assert forall|dx: int, dy: int| 0 <= dx < 16 && 0 <= dy < 16 implies #[trigger] c@[dx + 16 * dy]
            == (sheet.rgba@[sheet.alpha_index(tx * 16 + dx, ty * 16 + dy)] > 0) by {
            let j = dx + 16 * dy;
            assert(j % 16 == dx && j / 16 == dy);
        }
    }
    c
}

impl Sprite {
    /// The entity mirrored left to right when `flip` holds, else unchanged.
    pub fn maybe_flip(self, flip: bool) -> (r: Sprite)
        requires
            self.collider@.len() == CELLS,
        ensures
            r.collider@.len() == CELLS,
            !flip ==> r == self,
            flip ==> forall|x: int, y: int|
                0 <= x < 16 && 0 <= y < 16 ==> #[trigger] r.collider@[x + 16 * y] == self.collider@[(15
                    - x) + 16 * y],
            r == (Sprite { collider: r.collider, ..self }),
    {
        if !flip {
            return self;
        }
        let mut c: Vec<bool> = Vec::new();
        let mut i: usize = 0;
        while i < CELLS
            invariant
                self.collider@.len() == CELLS,
                i <= CELLS,
                c@.len() == i,
                forall|j: int| 0 <= j < i ==> #[trigger] c@[j] == self.collider@[(15 - j % 16) + 16 * (j / 16)],
            decreases CELLS - i,
        {
            let x = i % SPRITE_WIDTH;
            let y = i / SPRITE_WIDTH;
            c.push(self.collider[(SPRITE_WIDTH - x - 1) + y * SPRITE_WIDTH]);
            i = i + 1;
        }
        proof {
            assert forall|x: int, y: int| 0 <= x < 16 && 0 <= y < 16 implies #[trigger] c@[x + 16 * y]
                == self.collider@[(15 - x) + 16 * y] by {
                let j = x + 16 * y;
                assert(j % 16 == x && j / 16 == y);
            }
        }
        Sprite { collider: c, ..self }
    }
}

/// Cell offset of quarter `q` of an entity split by `Sprite::quarter`.
pub open spec fn quarter_offset(q: int) -> (int, int) {
    if q == 0 {
        (0, 0)
    } else if q == 1 {
        (7, 0)
    } else if q == 2 {
        (0, 7)
    } else {
        (7, 7)
    }
}

/// `part` is quarter `q` of `whole` as `Sprite::quarter` makes it: half the
/// scales, placed `quarter_offset(q)` scaled cells from the corner, the cells
/// from that offset on enlarged two-fold, and every other field copied.
pub open spec fn is_quarter(whole: Sprite, q: int, part: Sprite) -> bool {
    let (ox, oy) = quarter_offset(q);
    &&& part.wf()
    &&& part.x_scale == whole.x_scale / 2
    &&& part.y_scale == whole.y_scale / 2
    &&& part.x == whole.x + ox * whole.x_scale * SUBPIXEL
    &&& part.y == whole.y + oy * whole.y_scale * SUBPIXEL
    &&& forall|x: int, y: int|
        0 <= x < 16 && 0 <= y < 16 ==> #[trigger] part.collider@[x + 16 * y]
            == whole.collider@[(x / 2 + ox) + 16 * (y / 2 + oy)]
    &&& part.vx == whole.vx && part.vy == whole.vy
    &&& part.is_player == whole.is_player && part.gravity == whole.gravity
    &&& part.ground_contact == whole.ground_contact && part.jumping == whole.jumping
    &&& part.potion_timer == whole.potion_timer
    &&& part.pending_potions@ == whole.pending_potions@
    &&& part.sleep_timer == whole.sleep_timer
}

/// A copy of a list of potions.
fn copy_potions(v: &Vec<PotionType>) -> (r: Vec<PotionType>)
    ensures
        r@ == v@,
{
    let mut r: Vec<PotionType> = Vec::new();
    let mut i: usize = 0;
    while i < v.len()
        invariant
            i <= v@.len(),
            r@ == v@.subrange(0, i as int),
        decreases v@.len() - i,
    {
        r.push(v[i]);
        i = i + 1;
        proof {
            assert(r@ =~= v@.subrange(0, i as int));
        }
    }
    proof {
        assert(v@.subrange(0, v@.len() as int) =~= v@);
    }
    r
}

/// Margin, in fixed-point units, that splitting keeps from the world limit.
pub open spec fn quarter_room(v: int) -> bool {
    abs_int(v) <= (PIXEL_LIMIT - 7 * SCALE_LIMIT) * SUBPIXEL
}

/// The collider of quarter `(ox, oy)`: cell `(x, y)` copies cell
/// `(x / 2 + ox, y / 2 + oy)`, a two-fold enlargement.
fn quarter_collider(c: &Vec<bool>, ox: usize, oy: usize) -> (r: Vec<bool>)
    requires
        c@.len() == CELLS,
        ox <= 7,
        oy <= 7,
    ensures
        r@.len() == CELLS,
        forall|x: int, y: int|
            0 <= x < 16 && 0 <= y < 16 ==> #[trigger] r@[x + 16 * y] == c@[(x / 2 + ox) + 16 * (y / 2
                + oy)],
{
    let mut r: Vec<bool> = Vec::new();
    let mut i: usize = 0;
    while i < CELLS
        invariant
            c@.len() == CELLS,
            ox <= 7,
            oy <= 7,
            i <= CELLS,
            r@.len() == i,
            forall|j: int|
                0 <= j < i ==> #[trigger] r@[j] == c@[((j % 16) / 2 + ox) + 16 * ((j / 16) / 2 + oy)],
        decreases CELLS - i,
    {
        let x = i % SPRITE_WIDTH;
        let y = i / SPRITE_WIDTH;
        r.push(c[x / 2 + ox + (y / 2 + oy) * SPRITE_WIDTH]);
        i = i + 1;
    }
    proof {
        assert forall|x: int, y: int| 0 <= x < 16 && 0 <= y < 16 implies #[trigger] r@[x + 16 * y]
            == c@[(x / 2 + ox) + 16 * (y / 2 + oy)] by {
            let j = x + 16 * y;
            assert(j % 16 == x && j / 16 == y);
        }
    }
    r
}

impl Sprite {
    /// Splits the entity into four at half its scales. Quarter `q` takes the
    /// cells from offset `quarter_offset(q)` on, each enlarged two-fold, and
    /// sits that many scaled cells from the entity's corner.
    pub fn quarter(self) -> (r: Vec<Sprite>)
        requires
            self.wf(),
            self.x_scale >= 2,
            self.y_scale >= 2,
            quarter_room(self.x as int),
            quarter_room(self.y as int),
        ensures
            r@.len() == 4,
            forall|q: int|
                0 <= q < 4 ==> {
                    is_quarter(self, q, #[trigger] r@[q])
                },
    {
        let mut r: Vec<Sprite> = Vec::new();
        let mut q: usize = 0;
        while q < 4
            invariant
                self.wf(),
                self.x_scale >= 2,
                self.y_scale >= 2,
                quarter_room(self.x as int),
                quarter_room(self.y as int),
                q <= 4,
                r@.len() == q,
                forall|k: int|
                    0 <= k < q ==> {
                        is_quarter(self, k, #[trigger] r@[k])
                    },
            decreases 4 - q,
        {
            let ox: usize = if q == 1 || q == 3 {
                7
            } else {
                0
            };
            let oy: usize = if q >= 2 {
                7
            } else {
                0
            };
            proof {
                assert((ox as int, oy as int) == quarter_offset(q as int));
                assert(0 <= ox * self.x_scale * SUBPIXEL <= 7 * SCALE_LIMIT * SUBPIXEL) by (nonlinear_arith)
                    requires
                        0 <= ox <= 7,
                        1 <= self.x_scale <= SCALE_LIMIT,
                ;
                assert(0 <= oy * self.y_scale * SUBPIXEL <= 7 * SCALE_LIMIT * SUBPIXEL) by (nonlinear_arith)
                    requires
                        0 <= oy <= 7,
                        1 <= self.y_scale <= SCALE_LIMIT,
                ;
            }
            let collider = quarter_collider(&self.collider, ox, oy);
            let s = Sprite {
                is_player: self.is_player,
                collider,
                x: self.x + ox as i64 * self.x_scale as i64 * SUBPIXEL,
                y: self.y + oy as i64 * self.y_scale as i64 * SUBPIXEL,
                x_scale: self.x_scale / 2,
                y_scale: self.y_scale / 2,
                vx: self.vx,
                vy: self.vy,
                ground_contact: self.ground_contact,
                jumping: self.jumping,
                potion_timer: self.potion_timer,
                pending_potions: copy_potions(&self.pending_potions),
                sleep_timer: self.sleep_timer,
                gravity: self.gravity,
            };
            r.push(s);
            q = q + 1;
        }
        r
    }
}

/// Terrain material not yet indexed, with the layer it belongs to.
pub enum TerrainChunk {
    Foreground(Sprite),
    Background(Sprite),
    Terrain(Sprite),
}

impl TerrainChunk {
    pub open spec fn sprite(&self) -> Sprite {
        match self {
            TerrainChunk::Foreground(s) => *s,
            TerrainChunk::Background(s) => *s,
            TerrainChunk::Terrain(s) => *s,
        }
    }

    /// Fixed-point position of the chunk's entity.
    pub fn loc(&self) -> (r: (i64, i64))
        ensures
            r == (self.sprite().x, self.sprite().y),
    {
        match self {
            TerrainChunk::Foreground(s) => (s.x, s.y),
            TerrainChunk::Background(s) => (s.x, s.y),
            TerrainChunk::Terrain(s) => (s.x, s.y),
        }
    }

    /// Size measure of the chunk used to budget indexing work: the sum of its
    /// scaled width and height.
    pub fn pixel_count(&self) -> (r: u32)
        requires
            self.sprite().wf(),
        ensures
            r == SPRITE_WIDTH * self.sprite().x_scale + SPRITE_WIDTH * self.sprite().y_scale,
    {
        let s = match self {
            TerrainChunk::Foreground(s) => s,
            TerrainChunk::Background(s) => s,
            TerrainChunk::Terrain(s) => s,
        };
        s.x_scale * 16 + s.y_scale * 16
    }

    /// Splits the chunk's entity into its four quarters, on the same layer.
    pub fn quarter(self) -> (r: Vec<TerrainChunk>)
        requires
            self.sprite().wf(),
            self.sprite().x_scale >= 2,
            self.sprite().y_scale >= 2,
            quarter_room(self.sprite().x as int),
            quarter_room(self.sprite().y as int),
        ensures
            r@.len() == 4,
            forall|q: int| 0 <= q < 4 ==> is_quarter(self.sprite(), q, (#[trigger] r@[q]).sprite()),
            forall|q: int|
                0 <= q < 4 ==> match self {
                    TerrainChunk::Foreground(_) => #[trigger] r@[q] is Foreground,
                    TerrainChunk::Background(_) => r@[q] is Background,
                    TerrainChunk::Terrain(_) => r@[q] is Terrain,
                },
    {
        let (parts, kind) = match self {
            TerrainChunk::Foreground(s) => (s.quarter(), 0u8),
            TerrainChunk::Background(s) => (s.quarter(), 1u8),
            TerrainChunk::Terrain(s) => (s.quarter(), 2u8),
        };
        let ghost all_parts = parts@;
        let mut parts = parts;
        let mut r: Vec<TerrainChunk> = Vec::new();
        while parts.len() > 0
            invariant
                r@.len() + parts@.len() == 4,
                parts@ == all_parts.subrange(r@.len() as int, 4),
                all_parts.len() == 4,
                forall|q: int| 0 <= q < 4 ==> is_quarter(self.sprite(), q, #[trigger] all_parts[q]),
                kind == match self {
                    TerrainChunk::Foreground(_) => 0u8,
                    TerrainChunk::Background(_) => 1u8,
                    TerrainChunk::Terrain(_) => 2u8,
                },
                forall|q: int| 0 <= q < r@.len() ==> (#[trigger] r@[q]).sprite() == all_parts[q],
                forall|q: int|
                    0 <= q < r@.len() ==> match self {
                        TerrainChunk::Foreground(_) => #[trigger] r@[q] is Foreground,
                        TerrainChunk::Background(_) => r@[q] is Background,
                        TerrainChunk::Terrain(_) => r@[q] is Terrain,
                    },
            decreases parts@.len(),
        {
            let s = parts.remove(0);
            let c = if kind == 0 {
                TerrainChunk::Foreground(s)
            } else if kind == 1 {
                TerrainChunk::Background(s)
            } else {
                TerrainChunk::Terrain(s)
            };
            r.push(c);
        }
        r
    }
}

} // verus!
