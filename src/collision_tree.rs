//! A sparse hierarchical bitmap over a bounded integer rectangle.
//!
//! A node covers the half-open rectangle `[x, x + width) x [y, y + height)`.
//! It is either split into four quadrants, or stores a dense grid of
//! `width * height` cells, or stores nothing and is then entirely free.
//! Only nodes whose area exceeds `LEAF_AREA` split; smaller ones use a grid.
use vstd::prelude::*;

verus! {

/// Largest node area stored as a dense grid instead of four quadrants.
pub const LEAF_AREA: u32 = 4096;

/// Every node lies within this distance of the origin on both axes.
pub const COORD_BOUND: i64 = 1099511627776;

/// Number of `true` entries of a sequence.
pub open spec fn count_true(s: Seq<bool>) -> nat
    decreases s.len(),
{
    if s.len() == 0 {
        0
    } else {
        count_true(s.drop_last()) + if s.last() {
            1nat
        } else {
            0nat
        }
    }
}

/// The point `(px, py)` lies in the half-open rectangle at `(x, y)` of size `w` by `h`.
pub open spec fn in_rect(px: int, py: int, x: int, y: int, w: int, h: int) -> bool {
    x <= px < x + w && y <= py < y + h
}

/// `n` rounded up to a multiple of four.
pub open spec fn quantize(n: int) -> int {
    (n + 3) / 4 * 4
}

/// Two half-open rectangles share at least one point (neither is empty).
pub open spec fn rects_meet(
    x: int,
    y: int,
    w: int,
    h: int,
    x2: int,
    y2: int,
    w2: int,
    h2: int,
) -> bool {
    &&& 0 < w && 0 < h && 0 < w2 && 0 < h2
    &&& x < x2 + w2 && x2 < x + w && y < y2 + h2 && y2 < y + h
}

proof fn lemma_count_true_le(s: Seq<bool>)
    ensures
        count_true(s) <= s.len(),
    decreases s.len(),
{
    if s.len() > 0 {
        lemma_count_true_le(s.drop_last());
    }
}

proof fn lemma_count_true_all(s: Seq<bool>)
    ensures
        count_true(s) == s.len() ==> forall|i: int| 0 <= i < s.len() ==> s[i],
        count_true(s) == 0 ==> forall|i: int| 0 <= i < s.len() ==> !s[i],
    decreases s.len(),
{
    if s.len() > 0 {
        lemma_count_true_le(s.drop_last());
        lemma_count_true_all(s.drop_last());
        assert forall|i: int| 0 <= i < s.len() - 1 implies s[i] == s.drop_last()[i] by {}
    }
}

proof fn lemma_count_true_exists(s: Seq<bool>) -> (i: int)
    requires
        count_true(s) > 0,
    ensures
        0 <= i < s.len(),
        s[i],
    decreases s.len(),
{
    if s.last() {
        s.len() - 1
    } else {
        let j = lemma_count_true_exists(s.drop_last());
        assert(s[j] == s.drop_last()[j]);
        j
    }
}

proof fn lemma_count_true_update(s: Seq<bool>, i: int, b: bool)
    requires
        0 <= i < s.len(),
    ensures
        count_true(s.update(i, b)) + (if s[i] {
            1int
        } else {
            0int
        }) == count_true(s) + (if b {
            1int
        } else {
            0int
        }),
    decreases s.len(),
{
    let t = s.update(i, b);
    if i == s.len() - 1 {
        assert(t.drop_last() =~= s.drop_last());
    } else {
        assert(t.drop_last() =~= s.drop_last().update(i, b));
        lemma_count_true_update(s.drop_last(), i, b);
    }
}

proof fn lemma_count_true_push(s: Seq<bool>, b: bool)
    ensures
        count_true(s.push(b)) == count_true(s) + if b {
            1nat
        } else {
            0nat
        },
{
    assert(s.push(b).drop_last() =~= s);
}

proof fn lemma_index_bounds(w: int, h: int, a: int, b: int)
    requires
        0 <= a < w,
        0 <= b < h,
    ensures
        0 <= a + b * w < w * h,
{
    assert(0 <= b * w) by (nonlinear_arith)
        requires
            0 <= b,
            0 <= w,
    ;
    assert(b * w + w <= h * w) by (nonlinear_arith)
        requires
            b + 1 <= h,
            0 <= w,
    ;
    assert(w * h == h * w) by (nonlinear_arith);
}

proof fn lemma_index_injective(w: int, a1: int, b1: int, a2: int, b2: int)
    requires
        0 <= a1 < w,
        0 <= a2 < w,
        a1 + b1 * w == a2 + b2 * w,
    ensures
        a1 == a2,
        b1 == b2,
{
    assert((b1 - b2) * w == a2 - a1) by (nonlinear_arith)
        requires
            a1 + b1 * w == a2 + b2 * w,
    ;
    if b1 > b2 {
        assert((b1 - b2) * w >= w) by (nonlinear_arith)
            requires
                b1 - b2 >= 1,
                w >= 0,
        ;
    } else if b1 < b2 {
        assert((b2 - b1) * w >= w) by (nonlinear_arith)
            requires
                b2 - b1 >= 1,
                w >= 0,
        ;
        assert((b1 - b2) * w == -((b2 - b1) * w)) by (nonlinear_arith);
    }
}

proof fn lemma_index_inverse(w: int, h: int, i: int)
    requires
        0 <= i < w * h,
        0 < w,
    ensures
        0 <= i % w < w,
        0 <= i / w < h,
        i % w + (i / w) * w == i,
{
    vstd::arithmetic::div_mod::lemma_fundamental_div_mod(i, w);
    let q = i / w;
    let r = i % w;
    assert(q * w == w * q) by (nonlinear_arith);
    assert(q >= 0) by (nonlinear_arith)
        requires
            i == w * q + r,
            0 <= i,
            0 <= r < w,
    ;
    assert(q < h) by (nonlinear_arith)
        requires
            i == w * q + r,
            i < w * h,
            0 <= r,
            0 < w,
    ;
}

/// The four quadrants of a `w` by `h` rectangle split at `w / 2`, `h / 2`
/// together have its area, and each is smaller when the area exceeds one pixel.
proof fn lemma_quadrant_areas(w: int, h: int)
    requires
        w >= 0,
        h >= 0,
    ensures
        (w / 2) * (h / 2) + (w - w / 2) * (h / 2) + (w - w / 2) * (h - h / 2) + (w / 2) * (h
            - h / 2) == w * h,
        w * h > 1 ==> (w / 2) * (h / 2) < w * h && (w - w / 2) * (h / 2) < w * h && (w - w / 2)
            * (h - h / 2) < w * h && (w / 2) * (h - h / 2) < w * h,
        0 <= (w / 2) * (h / 2) && 0 <= (w - w / 2) * (h / 2) && 0 <= (w - w / 2) * (h - h / 2)
            && 0 <= (w / 2) * (h - h / 2),
{
    let w0 = w / 2;
    let w1 = w - w0;
    let h0 = h / 2;
    let h1 = h - h0;
    assert(w0 * h0 + w1 * h0 + w1 * h1 + w0 * h1 == (w0 + w1) * (h0 + h1)) by (nonlinear_arith);
    assert(0 <= w0 * h0 && 0 <= w1 * h0 && 0 <= w1 * h1 && 0 <= w0 * h1) by (nonlinear_arith)
        requires
            0 <= w0,
            0 <= w1,
            0 <= h0,
            0 <= h1,
    ;
    if w * h > 1 {
        // the largest quadrant is w1 * h1, and w1 <= w, h1 <= h with one strict
        assert(w >= 1 && h >= 1) by (nonlinear_arith)
            requires
                w * h > 1,
                w >= 0,
                h >= 0,
        ;
        assert(w >= 2 || h >= 2) by (nonlinear_arith)
            requires
                w * h > 1,
                w >= 1,
                h >= 1,
        ;
        assert(w1 * h1 < w * h) by (nonlinear_arith)
            requires
                1 <= w1 <= w,
                1 <= h1 <= h,
                w1 < w || h1 < h,
        ;
        assert(w0 * h0 <= w1 * h1 && w1 * h0 <= w1 * h1 && w0 * h1 <= w1 * h1) by (
        nonlinear_arith)
            requires
                0 <= w0 <= w1,
                0 <= h0 <= h1,
        ;
    }
}

/// What inserting one pixel returns: `Err` outside the domain, else whether
/// the pixel was free before.
pub open spec fn point_insert_result(in_domain: bool, was_solid: bool) -> Result<bool, ()> {
    if in_domain {
        Ok(!was_solid)
    } else {
        Err(())
    }
}

/// `t1` is `t0` with the pixel `(x, y)` made solid, if it lies in the domain.
pub open spec fn inserted_point(t0: CollisionTree, t1: CollisionTree, x: int, y: int) -> bool {
    forall|px: int, py: int| #[trigger]
        t1.has(px, py) == (t0.has(px, py) || (t0.in_domain(x, y) && px == x && py == y))
}

/// `t1` is `t0` with the pixels of the rectangle that lie in the domain made solid.
pub open spec fn inserted_rect(
    t0: CollisionTree,
    t1: CollisionTree,
    x: int,
    y: int,
    w: int,
    h: int,
) -> bool {
    forall|px: int, py: int| #[trigger]
        t1.has(px, py) == (t0.has(px, py) || (t0.in_domain(px, py) && in_rect(px, py, x, y, w, h)))
}

/// `t1` is `t0` with the pixels of the rectangle made free.
pub open spec fn removed_rect(
    t0: CollisionTree,
    t1: CollisionTree,
    x: int,
    y: int,
    w: int,
    h: int,
) -> bool {
    forall|px: int, py: int| #[trigger]
        t1.has(px, py) == (t0.has(px, py) && !in_rect(px, py, x, y, w, h))
}

/// `insert_rect` fails: a rectangle with a zero side fails when its anchor
/// lies outside the domain, any other one when it shares no pixel with it.
pub open spec fn rect_insert_fails(t: CollisionTree, x: int, y: int, w: int, h: int) -> bool {
    if w == 0 || h == 0 {
        !t.in_domain(x, y)
    } else {
        !t.meets(x, y, w, h)
    }
}

/// A grid of `n` free cells.
fn new_grid(n: usize) -> (g: Vec<bool>)
    ensures
        g@.len() == n,
        count_true(g@) == 0,
        forall|i: int| 0 <= i < n ==> !g@[i],
{
    let mut g: Vec<bool> = Vec::with_capacity(n);
    let mut k: usize = 0;
    while k < n
        invariant
            k <= n,
            g@.len() == k,
            count_true(g@) == 0,
            forall|i: int| 0 <= i < k ==> !g@[i],
        decreases n - k,
    {
        proof {
            lemma_count_true_push(g@, false);
        }
        g.push(false);
        k = k + 1;
    }
    g
}

struct Quadrants {
    nw: CollisionTree,
    ne: CollisionTree,
    se: CollisionTree,
    sw: CollisionTree,
}

/// Occupancy index over the pixels of a rectangular domain.
pub struct CollisionTree {
    x: i64,
    y: i64,
    width: u32,
    height: u32,
    free_pixels: u32,
    children: Option<Box<Quadrants>>,
    grid: Option<Vec<bool>>,
}

impl CollisionTree {
    pub closed spec fn spec_x(self) -> int {
        self.x as int
    }

    pub closed spec fn spec_y(self) -> int {
        self.y as int
    }

    pub closed spec fn spec_width(self) -> nat {
        self.width as nat
    }

    pub closed spec fn spec_height(self) -> nat {
        self.height as nat
    }

    /// Number of pixels of the domain.
    pub open spec fn area(self) -> nat {
        self.spec_width() * self.spec_height()
    }

    /// The free-pixel counter of the node.
    pub closed spec fn free(self) -> nat {
        self.free_pixels as nat
    }

    /// `(px, py)` is a pixel of the domain.
    pub open spec fn in_domain(self, px: int, py: int) -> bool {
        in_rect(px, py, self.spec_x(), self.spec_y(), self.spec_width() as int, self.spec_height() as int)
    }

    /// The rectangle at `(x, y)` of size `w` by `h` shares a pixel with the domain.
    pub open spec fn meets(self, x: int, y: int, w: int, h: int) -> bool {
        rects_meet(x, y, w, h, self.spec_x(), self.spec_y(), self.spec_width() as int, self.spec_height() as int)
    }

    spec fn index_of(self, px: int, py: int) -> int {
        (px - self.x) + (py - self.y) * self.width
    }

    /// The pixel `(px, py)` is solid.
    pub closed spec fn has(self, px: int, py: int) -> bool
        decreases self,
    {
        if !self.in_domain(px, py) {
            false
        } else {
            match self.children {
                Some(q) => q.nw.has(px, py) || q.ne.has(px, py) || q.se.has(px, py) || q.sw.has(
                    px,
                    py,
                ),
                None => match self.grid {
                    Some(g) => g@[self.index_of(px, py)],
                    None => false,
                },
            }
        }
    }

    /// Number of solid pixels, counted over the stored grids.
    pub closed spec fn count(self) -> nat
        decreases self,
    {
        match self.children {
            Some(q) => q.nw.count() + q.ne.count() + q.se.count() + q.sw.count(),
            None => match self.grid {
                Some(g) => count_true(g@),
                None => 0,
            },
        }
    }

    spec fn has_bounds(self, x: int, y: int, w: int, h: int) -> bool {
        self.x == x && self.y == y && self.width == w && self.height == h
    }

    spec fn quadrants_fit(self, q: Quadrants) -> bool {
        let w0 = self.width as int / 2;
        let w1 = self.width - w0;
        let h0 = self.height as int / 2;
        let h1 = self.height - h0;
        &&& q.nw.has_bounds(self.x as int, self.y as int, w0, h0)
        &&& q.ne.has_bounds(self.x + w0, self.y as int, w1, h0)
        &&& q.se.has_bounds(self.x + w0, self.y + h0, w1, h1)
        &&& q.sw.has_bounds(self.x as int, self.y + h0, w0, h1)
    }

    /// Well-formedness: the free-pixel counter and the stored cells agree,
    /// quadrants partition their parent, and grids have one cell per pixel.
    pub closed spec fn wf(self) -> bool
        decreases self,
    {
        &&& self.area() <= u32::MAX
        &&& -COORD_BOUND <= self.x && self.x + self.width <= COORD_BOUND
        &&& -COORD_BOUND <= self.y && self.y + self.height <= COORD_BOUND
        &&& self.free_pixels + self.count() == self.area()
        &&& match self.children {
            Some(q) => {
                &&& self.area() > LEAF_AREA
                &&& self.grid.is_none()
                &&& self.quadrants_fit(*q)
                &&& q.nw.wf()
                &&& q.ne.wf()
                &&& q.se.wf()
                &&& q.sw.wf()
            },
            None => match self.grid {
                Some(g) => self.area() <= LEAF_AREA && g@.len() == self.area(),
                None => true,
            },
        }
    }

    proof fn lemma_wf_basic(self)
        requires
            self.wf(),
        ensures
            self.free_pixels + self.count() == self.area(),
            self.area() <= u32::MAX,
            -COORD_BOUND <= self.x && self.x + self.width <= COORD_BOUND,
            -COORD_BOUND <= self.y && self.y + self.height <= COORD_BOUND,
    {
    }

    /// Facts about the quadrants of a split node.
    proof fn lemma_split(self)
        requires
            self.wf(),
            self.children.is_some(),
        ensures
            ({
                let q = *self.children->Some_0;
                &&& q.nw.wf() && q.ne.wf() && q.se.wf() && q.sw.wf()
                &&& self.quadrants_fit(q)
                &&& self.grid.is_none()
                &&& self.area() > LEAF_AREA
                &&& self.count() == q.nw.count() + q.ne.count() + q.se.count() + q.sw.count()
                &&& self.area() == q.nw.area() + q.ne.area() + q.se.area() + q.sw.area()
                &&& q.nw.area() < self.area() && q.ne.area() < self.area()
                &&& q.se.area() < self.area() && q.sw.area() < self.area()
                &&& q.nw.free_pixels + q.nw.count() == q.nw.area()
                &&& q.ne.free_pixels + q.ne.count() == q.ne.area()
                &&& q.se.free_pixels + q.se.count() == q.se.area()
                &&& q.sw.free_pixels + q.sw.count() == q.sw.area()
            }),
    {
        let q = *self.children->Some_0;
        lemma_quadrant_areas(self.width as int, self.height as int);
        q.nw.lemma_wf_basic();
        q.ne.lemma_wf_basic();
        q.se.lemma_wf_basic();
        q.sw.lemma_wf_basic();
    }

    proof fn lemma_split_domain(self, q: Quadrants, px: int, py: int)
        requires
            self.quadrants_fit(q),
        ensures
            self.in_domain(px, py) <==> (q.nw.in_domain(px, py) || q.ne.in_domain(px, py)
                || q.se.in_domain(px, py) || q.sw.in_domain(px, py)),
            q.nw.in_domain(px, py) ==> !q.ne.in_domain(px, py) && !q.se.in_domain(px, py)
                && !q.sw.in_domain(px, py),
            q.ne.in_domain(px, py) ==> !q.se.in_domain(px, py) && !q.sw.in_domain(px, py),
            q.se.in_domain(px, py) ==> !q.sw.in_domain(px, py),
    {
    }

    /// A node with no free pixel has every pixel of its domain solid.
    proof fn lemma_full(self)
        requires
            self.wf(),
            self.free_pixels == 0,
        ensures
            forall|px: int, py: int| self.in_domain(px, py) ==> self.has(px, py),
        decreases self,
    {
        match self.children {
            Some(q) => {
                self.lemma_split();
                q.nw.lemma_full();
                q.ne.lemma_full();
                q.se.lemma_full();
                q.sw.lemma_full();
                assert forall|px: int, py: int| self.in_domain(px, py) implies self.has(px, py) by {
                    self.lemma_split_domain(*q, px, py);
                }
            },
            None => match self.grid {
                Some(g) => {
                    lemma_count_true_all(g@);
                    assert forall|px: int, py: int| self.in_domain(px, py) implies self.has(
                        px,
                        py,
                    ) by {
                        lemma_index_bounds(
                            self.width as int,
                            self.height as int,
                            px - self.x,
                            py - self.y,
                        );
                    }
                },
                None => {
                    assert forall|px: int, py: int| self.in_domain(px, py) implies self.has(
                        px,
                        py,
                    ) by {
                        lemma_index_bounds(
                            self.width as int,
                            self.height as int,
                            px - self.x,
                            py - self.y,
                        );
                    }
                },
            },
        }
    }

    /// A node whose free-pixel counter equals its area has no solid pixel.
    proof fn lemma_empty(self)
        requires
            self.wf(),
            self.free_pixels == self.area(),
        ensures
            forall|px: int, py: int| !self.has(px, py),
        decreases self,
    {
        match self.children {
            Some(q) => {
                self.lemma_split();
                q.nw.lemma_empty();
                q.ne.lemma_empty();
                q.se.lemma_empty();
                q.sw.lemma_empty();
                assert forall|px: int, py: int| !self.has(px, py) by {
                    assert(!q.nw.has(px, py) && !q.ne.has(px, py));
                    assert(!q.se.has(px, py) && !q.sw.has(px, py));
                }
            },
            None => match self.grid {
                Some(g) => {
                    lemma_count_true_all(g@);
                    assert forall|px: int, py: int| !self.has(px, py) by {
                        if self.in_domain(px, py) {
                            lemma_index_bounds(
                                self.width as int,
                                self.height as int,
                                px - self.x,
                                py - self.y,
                            );
                        }
                    }
                },
                None => {},
            },
        }
    }

    /// A node with fewer free pixels than its area has a solid pixel.
    proof fn lemma_not_empty(self) -> (p: (int, int))
        requires
            self.wf(),
            self.free_pixels < self.area(),
        ensures
            self.has(p.0, p.1),
        decreases self,
    {
        match self.children {
            Some(q) => {
                self.lemma_split();
                if q.nw.free_pixels < q.nw.area() {
                    q.nw.lemma_not_empty()
                } else if q.ne.free_pixels < q.ne.area() {
                    q.ne.lemma_not_empty()
                } else if q.se.free_pixels < q.se.area() {
                    q.se.lemma_not_empty()
                } else {
                    q.sw.lemma_not_empty()
                }
            },
            None => match self.grid {
                Some(g) => {
                    let i = lemma_count_true_exists(g@);
                    assert(self.width > 0) by (nonlinear_arith)
                        requires
                            self.width as int * self.height as int > 0,
                    ;
                    lemma_index_inverse(self.width as int, self.height as int, i);
                    (self.x + i % (self.width as int), self.y + i / (self.width as int))
                },
                None => (0, 0),
            },
        }
    }

    fn empty_node(x: i64, y: i64, width: u32, height: u32) -> (t: Self)
        requires
            width as int * height as int <= u32::MAX,
            -COORD_BOUND <= x && x + width <= COORD_BOUND,
            -COORD_BOUND <= y && y + height <= COORD_BOUND,
        ensures
            t.wf(),
            t.has_bounds(x as int, y as int, width as int, height as int),
            t.free_pixels == t.area(),
            t.count() == 0,
            forall|px: int, py: int| !t.has(px, py),
    {
        let area = width as u64 * height as u64;
        CollisionTree {
            x,
            y,
            width,
            height,
            free_pixels: area as u32,
            children: None,
            grid: None,
        }
    }

    /// A tree over the rectangle at `(x, y)`, its sides rounded up to a
    /// multiple of four, with every pixel free.
    pub fn new(x: i32, y: i32, width: u32, height: u32) -> (t: Self)
        requires
            quantize(width as int) <= u32::MAX,
            quantize(height as int) <= u32::MAX,
            quantize(width as int) * quantize(height as int) <= u32::MAX,
        ensures
            t.wf(),
            t.spec_x() == x,
            t.spec_y() == y,
            t.spec_width() == quantize(width as int),
            t.spec_height() == quantize(height as int),
            t.free() == t.area(),
            forall|px: int, py: int| !t.has(px, py),
    {
        let w = ((width as u64 + 3) / 4 * 4) as u32;
        let h = ((height as u64 + 3) / 4 * 4) as u32;
        Self::empty_node(x as i64, y as i64, w, h)
    }

    /// Makes every pixel free again and drops all stored cells.
    pub fn clear(&mut self)
        requires
            old(self).wf(),
        ensures
            final(self).wf(),
            final(self).spec_x() == old(self).spec_x(),
            final(self).spec_y() == old(self).spec_y(),
            final(self).spec_width() == old(self).spec_width(),
            final(self).spec_height() == old(self).spec_height(),
            final(self).free() == final(self).area(),
            forall|px: int, py: int| !final(self).has(px, py),
    {
        self.free_pixels = (self.width as u64 * self.height as u64) as u32;
        self.children = None;
        self.grid = None;
    }

    pub fn x(&self) -> (r: i64)
        ensures
            r == self.spec_x(),
    {
        self.x
    }

    pub fn y(&self) -> (r: i64)
        ensures
            r == self.spec_y(),
    {
        self.y
    }

    pub fn width(&self) -> (r: u32)
        ensures
            r == self.spec_width(),
    {
        self.width
    }

    pub fn height(&self) -> (r: u32)
        ensures
            r == self.spec_height(),
    {
        self.height
    }

    /// Number of free pixels of the domain.
    pub fn free_pixels(&self) -> (r: u32)
        ensures
            r == self.free(),
    {
        self.free_pixels
    }

    /// Whether the pixel `(x, y)` is solid; `false` outside the domain.
    pub fn check_point(&self, x: i32, y: i32) -> (r: bool)
        requires
            self.wf(),
        ensures
            r == self.has(x as int, y as int),
            !self.in_domain(x as int, y as int) ==> !r,
        decreases self,
    {
        let xx = x as i64;
        let yy = y as i64;
        if xx < self.x || xx >= self.x + self.width as i64 || yy < self.y || yy >= self.y
            + self.height as i64 {
            return false;
        }
        if self.free_pixels == 0 {
            proof {
                self.lemma_full();
            }
            return true;
        }
        if self.free_pixels == self.area_exec() {
            proof {
                self.lemma_empty();
            }
            return false;
        }
        match &self.grid {
            Some(g) => {
                proof {
                    lemma_index_bounds(
                        self.width as int,
                        self.height as int,
                        xx - self.x,
                        yy - self.y,
                    );
                }
                let i = ((xx - self.x) + (yy - self.y) * self.width as i64) as usize;
                g[i]
            },
            None => match &self.children {
                Some(q) => {
                    q.nw.check_point(x, y) || q.ne.check_point(x, y) || q.se.check_point(x, y)
                        || q.sw.check_point(x, y)
                },
                None => false,
            },
        }
    }

    /// `self` and `other` cover the same domain.
    pub open spec fn same_domain(self, other: Self) -> bool {
        &&& self.spec_x() == other.spec_x()
        &&& self.spec_y() == other.spec_y()
        &&& self.spec_width() == other.spec_width()
        &&& self.spec_height() == other.spec_height()
    }

    fn contains(&self, x: i64, y: i64) -> (r: bool)
        requires
            self.wf(),
        ensures
            r == self.in_domain(x as int, y as int),
    {
        proof {
            self.lemma_wf_basic();
        }
        x >= self.x && x < self.x + self.width as i64 && y >= self.y && y < self.y
            + self.height as i64
    }

    fn is_leaf_sized(&self) -> (r: bool)
        requires
            self.wf(),
        ensures
            r == (self.area() <= LEAF_AREA),
    {
        proof {
            self.lemma_wf_basic();
        }
        (self.width as u64) * (self.height as u64) <= LEAF_AREA as u64
    }

    fn area_exec(&self) -> (r: u32)
        requires
            self.wf(),
        ensures
            r == self.area(),
    {
        proof {
            self.lemma_wf_basic();
        }
        ((self.width as u64) * (self.height as u64)) as u32
    }

    /// Gives a node above leaf size its four quadrants, empty if it had none.
    fn split(&mut self)
        requires
            old(self).wf(),
            old(self).area() > LEAF_AREA,
        ensures
            final(self).wf(),
            final(self).children.is_some(),
            final(self).same_domain(*old(self)),
            final(self).free_pixels == old(self).free_pixels,
            final(self).count() == old(self).count(),
            forall|px: int, py: int| final(self).has(px, py) == old(self).has(px, py),
    {
        if self.children.is_none() {
            proof {
                self.lemma_wf_basic();
                lemma_quadrant_areas(self.width as int, self.height as int);
            }
            let w0 = self.width / 2;
            let w1 = self.width - w0;
            let h0 = self.height / 2;
            let h1 = self.height - h0;
            let xm = self.x + w0 as i64;
            let ym = self.y + h0 as i64;
            let q = Quadrants {
                nw: Self::empty_node(self.x, self.y, w0, h0),
                ne: Self::empty_node(xm, self.y, w1, h0),
                se: Self::empty_node(xm, ym, w1, h1),
                sw: Self::empty_node(self.x, ym, w0, h1),
            };
            self.children = Some(Box::new(q));
            proof {
                assert forall|px: int, py: int| !self.has(px, py) by {
                    assert(!q.nw.has(px, py) && !q.ne.has(px, py));
                    assert(!q.se.has(px, py) && !q.sw.has(px, py));
                }
            }
        }
    }

    /// Recursive worker of `insert`.
    fn insert_point(&mut self, x: i32, y: i32) -> (r: Result<bool, ()>)
        requires
            old(self).wf(),
        ensures
            final(self).wf(),
            final(self).same_domain(*old(self)),
            r == point_insert_result(old(self).in_domain(x as int, y as int), old(self).has(x as int, y as int)),
            inserted_point(*old(self), *final(self), x as int, y as int),
            final(self).free() + (if r == Ok::<bool, ()>(true) {
                1int
            } else {
                0int
            }) == old(self).free(),
        decreases old(self).area(),
    {
        let xx = x as i64;
        let yy = y as i64;
        if !self.contains(xx, yy) {
            return Err(());
        }
        if self.free_pixels == 0 {
            proof {
                self.lemma_full();
            }
            return Ok(false);
        }
        if !self.is_leaf_sized() {
            self.split();
            proof {
                self.lemma_split();
            }
            let ghost s1 = *self;
            let mut q = self.children.take().unwrap();
            let ghost q0 = *q;
            proof {
                s1.lemma_split_domain(q0, x as int, y as int);
                assert(s1.has(x as int, y as int) == (q0.nw.has(x as int, y as int) || q0.ne.has(
                    x as int,
                    y as int,
                ) || q0.se.has(x as int, y as int) || q0.sw.has(x as int, y as int)));
            }
            let e = if q.nw.contains(xx, yy) {
                q.nw.insert_point(x, y)
            } else if q.ne.contains(xx, yy) {
                q.ne.insert_point(x, y)
            } else if q.se.contains(xx, yy) {
                q.se.insert_point(x, y)
            } else {
                q.sw.insert_point(x, y)
            };
            proof {
                q.nw.lemma_wf_basic();
                q.ne.lemma_wf_basic();
                q.se.lemma_wf_basic();
                q.sw.lemma_wf_basic();
            }
            self.children = Some(q);
            if let Ok(true) = e {
                self.free_pixels = self.free_pixels - 1;
            }
            proof {
                assert forall|px: int, py: int| #[trigger]
                    self.has(px, py) == (old(self).has(px, py) || (px == x && py == y)) by {
                    assert(s1.has(px, py) == (q0.nw.has(px, py) || q0.ne.has(px, py) || q0.se.has(
                        px,
                        py,
                    ) || q0.sw.has(px, py)));
                    assert(self.has(px, py) == (q.nw.has(px, py) || q.ne.has(px, py) || q.se.has(
                        px,
                        py,
                    ) || q.sw.has(px, py)));
                }
            }
            e
        } else {
            if self.grid.is_none() {
                let n = self.area_exec();
                self.grid = Some(new_grid(n as usize));
            }
            let mut g = self.grid.take().unwrap();
            proof {
                lemma_index_bounds(self.width as int, self.height as int, xx - self.x, yy - self.y);
            }
            let i = ((xx - self.x) + (yy - self.y) * self.width as i64) as usize;
            if g[i] {
                self.grid = Some(g);
                Ok(false)
            } else {
                let ghost g0 = g@;
                g[i] = true;
                proof {
                    lemma_count_true_update(g0, i as int, true);
                }
                self.grid = Some(g);
                self.free_pixels = self.free_pixels - 1;
                proof {
                    assert forall|px: int, py: int| #[trigger]
                        self.has(px, py) == (old(self).has(px, py) || (px == x && py == y)) by {
                        if self.in_domain(px, py) {
                            lemma_index_bounds(
                                self.width as int,
                                self.height as int,
                                px - self.x,
                                py - self.y,
                            );
                            if self.index_of(px, py) == i {
                                lemma_index_injective(
                                    self.width as int,
                                    px - self.x,
                                    py - self.y,
                                    xx - self.x,
                                    yy - self.y,
                                );
                            }
                        }
                    }
                }
                Ok(true)
            }
        }
    }

    /// The grid cell of pixel `(px, py)` holds `val` after the cells of
    /// `[x0, x1) x [y0, cy)` and of `[x0, cx) x {cy}` were set to `val`.
    spec fn filled_cell(
        self,
        g: Seq<bool>,
        g0: Seq<bool>,
        px: int,
        py: int,
        x0: int,
        y0: int,
        x1: int,
        cx: int,
        cy: int,
        val: bool,
    ) -> bool {
        g[self.index_of(px, py)] == if in_rect(px, py, x0, y0, x1 - x0, cy - y0) || (py == cy
            && x0 <= px < cx) {
            val
        } else {
            g0[self.index_of(px, py)]
        }
    }

    /// Sets every grid cell of `[x0, x1) x [y0, y1)` to `val` and returns how
    /// many cells changed.
    fn grid_fill(&mut self, x0: i64, y0: i64, x1: i64, y1: i64, val: bool) -> (changed: u32)
        requires
            old(self).wf(),
            old(self).grid.is_some(),
            old(self).children.is_none(),
            old(self).x <= x0 <= x1 <= old(self).x + old(self).width,
            old(self).y <= y0 <= y1 <= old(self).y + old(self).height,
        ensures
            final(self).wf(),
            final(self).same_domain(*old(self)),
            final(self).grid.is_some(),
            final(self).children.is_none(),
            forall|px: int, py: int| #[trigger]
                final(self).has(px, py) == if in_rect(
                    px,
                    py,
                    x0 as int,
                    y0 as int,
                    x1 - x0,
                    y1 - y0,
                ) {
                    val
                } else {
                    old(self).has(px, py)
                },
            val ==> final(self).free() + changed == old(self).free(),
            !val ==> final(self).free() == old(self).free() + changed,
    {
        proof {
            self.lemma_wf_basic();
        }
        let ghost s0 = *self;
        let mut g = self.grid.take().unwrap();
        let ghost g0 = g@;
        let w = self.width as i64;
        let sx = self.x;
        let sy = self.y;
        let mut changed: u32 = 0;
        let mut cy = y0;
        while cy < y1
            invariant
                s0.wf(),
                s0.grid.is_some() && s0.grid->Some_0@ == g0,
                s0.children.is_none(),
                w == s0.width,
                sx == s0.x,
                sy == s0.y,
                s0.x <= x0 <= x1 <= s0.x + s0.width,
                s0.y <= y0 <= y1 <= s0.y + s0.height,
                y0 <= cy <= y1,
                g@.len() == g0.len(),
                g0.len() == s0.area(),
                s0.area() <= u32::MAX,
                val ==> count_true(g@) == count_true(g0) + changed,
                !val ==> count_true(g@) + changed == count_true(g0),
                forall|px: int, py: int|
                    #![trigger s0.index_of(px, py)]
                    s0.in_domain(px, py) ==> s0.filled_cell(
                        g@,
                        g0,
                        px,
                        py,
                        x0 as int,
                        y0 as int,
                        x1 as int,
                        x0 as int,
                        cy as int,
                        val,
                    ),
            decreases y1 - cy,
        {
            let mut cx = x0;
            while cx < x1
                invariant
                    s0.wf(),
                    s0.grid.is_some() && s0.grid->Some_0@ == g0,
                    w == s0.width,
                    sx == s0.x,
                    sy == s0.y,
                    s0.x <= x0 <= x1 <= s0.x + s0.width,
                    s0.y <= y0 <= cy < y1 <= s0.y + s0.height,
                    x0 <= cx <= x1,
                    g@.len() == g0.len(),
                    g0.len() == s0.area(),
                    s0.area() <= u32::MAX,
                    val ==> count_true(g@) == count_true(g0) + changed,
                    !val ==> count_true(g@) + changed == count_true(g0),
                    forall|px: int, py: int|
                        #![trigger s0.index_of(px, py)]
                        s0.in_domain(px, py) ==> s0.filled_cell(
                            g@,
                            g0,
                            px,
                            py,
                            x0 as int,
                            y0 as int,
                            x1 as int,
                            cx as int,
                            cy as int,
                            val,
                        ),
                decreases x1 - cx,
            {
                proof {
                    lemma_index_bounds(s0.width as int, s0.height as int, cx - sx, cy - sy);
                }
                let i = ((cx - sx) + (cy - sy) * w) as usize;
                let ghost g1 = g@;
                if g[i] != val {
                    g[i] = val;
                    proof {
                        lemma_count_true_update(g1, i as int, val);
                        lemma_count_true_le(g1);
                        lemma_count_true_le(g@);
                    }
                    changed = changed + 1;
                }
                proof {
                    assert forall|px: int, py: int|
                        #![trigger s0.index_of(px, py)]
                        s0.in_domain(px, py) implies s0.filled_cell(
                            g@,
                            g0,
                            px,
                            py,
                            x0 as int,
                            y0 as int,
                            x1 as int,
                            cx + 1,
                            cy as int,
                            val,
                        ) by {
                        lemma_index_bounds(s0.width as int, s0.height as int, px - sx, py - sy);
                        if s0.index_of(px, py) == i {
                            lemma_index_injective(s0.width as int, px - sx, py - sy, cx - sx, cy - sy);
                        }
                        assert(s0.filled_cell(
                            g1,
                            g0,
                            px,
                            py,
                            x0 as int,
                            y0 as int,
                            x1 as int,
                            cx as int,
                            cy as int,
                            val,
                        ));
                    }
                }
                cx = cx + 1;
            }
            proof {
                assert forall|px: int, py: int|
                    #![trigger s0.index_of(px, py)]
                    s0.in_domain(px, py) implies s0.filled_cell(
                        g@,
                        g0,
                        px,
                        py,
                        x0 as int,
                        y0 as int,
                        x1 as int,
                        x0 as int,
                        cy + 1,
                        val,
                    ) by {
                    assert(s0.filled_cell(
                        g@,
                        g0,
                        px,
                        py,
                        x0 as int,
                        y0 as int,
                        x1 as int,
                        x1 as int,
                        cy as int,
                        val,
                    ));
                }
            }
            cy = cy + 1;
        }
        proof {
            lemma_count_true_le(g@);
            lemma_count_true_le(g0);
        }
        self.grid = Some(g);
        if val {
            self.free_pixels = self.free_pixels - changed;
        } else {
            self.free_pixels = self.free_pixels + changed;
        }
        proof {
            assert forall|px: int, py: int| #[trigger]
                self.has(px, py) == if in_rect(px, py, x0 as int, y0 as int, x1 - x0, y1 - y0) {
                    val
                } else {
                    old(self).has(px, py)
                } by {
                if s0.in_domain(px, py) {
                    assert(s0.filled_cell(
                        g@,
                        g0,
                        px,
                        py,
                        x0 as int,
                        y0 as int,
                        x1 as int,
                        x0 as int,
                        y1 as int,
                        val,
                    ));
                }
            }
        }
        changed
    }

    /// Whether some grid cell of `[x0, x1) x [y0, y1)` is solid.
    fn grid_any(&self, x0: i64, y0: i64, x1: i64, y1: i64) -> (r: bool)
        requires
            self.wf(),
            self.grid.is_some(),
            self.children.is_none(),
            self.x <= x0 <= x1 <= self.x + self.width,
            self.y <= y0 <= y1 <= self.y + self.height,
        ensures
            r == exists|px: int, py: int|
                in_rect(px, py, x0 as int, y0 as int, x1 - x0, y1 - y0) && #[trigger] self.has(
                    px,
                    py,
                ),
    {
        proof {
            self.lemma_wf_basic();
        }
        let g = self.grid.as_ref().unwrap();
        let w = self.width as i64;
        let mut cy = y0;
        while cy < y1
            invariant
                self.wf(),
                self.grid.is_some() && self.grid->Some_0@ == g@,
                self.children.is_none(),
                w == self.width,
                self.x <= x0 <= x1 <= self.x + self.width,
                self.y <= y0 <= y1 <= self.y + self.height,
                y0 <= cy <= y1,
                forall|px: int, py: int|
                    in_rect(px, py, x0 as int, y0 as int, x1 - x0, cy - y0) ==> !#[trigger] self.has(
                        px,
                        py,
                    ),
            decreases y1 - cy,
        {
            let mut cx = x0;
            while cx < x1
                invariant
                    self.wf(),
                    self.grid.is_some() && self.grid->Some_0@ == g@,
                    self.children.is_none(),
                    w == self.width,
                    self.x <= x0 <= x1 <= self.x + self.width,
                    self.y <= y0 <= cy < y1 <= self.y + self.height,
                    x0 <= cx <= x1,
                    forall|px: int, py: int|
                        in_rect(px, py, x0 as int, y0 as int, x1 - x0, cy - y0) || (py == cy && x0
                            <= px < cx) ==> !#[trigger] self.has(px, py),
                decreases x1 - cx,
            {
                proof {
                    lemma_index_bounds(
                        self.width as int,
                        self.height as int,
                        cx - self.x,
                        cy - self.y,
                    );
                }
                let i = ((cx - self.x) + (cy - self.y) * w) as usize;
                if g[i] {
                    proof {
                        assert(self.has(cx as int, cy as int));
                    }
                    return true;
                }
                cx = cx + 1;
            }
            cy = cy + 1;
        }
        false
    }

    /// Recursive worker of `insert_rect`.
    fn fill_rect(&mut self, x: i32, y: i32, width: u32, height: u32) -> (r: Result<
        u32,
        (),
    >)
        requires
            old(self).wf(),
        ensures
            final(self).wf(),
            final(self).same_domain(*old(self)),
            r is Err <==> !old(self).meets(x as int, y as int, width as int, height as int),
            inserted_rect(*old(self), *final(self), x as int, y as int, width as int, height as int),
            r matches Ok(n) ==> final(self).free() + n == old(self).free(),
            r is Err ==> final(self).free() == old(self).free(),
        decreases old(self).area(),
    {
        proof {
            self.lemma_wf_basic();
        }
        let rx0 = x as i64;
        let ry0 = y as i64;
        let rx1 = x as i64 + width as i64;
        let ry1 = y as i64 + height as i64;
        let sx1 = self.x + self.width as i64;
        let sy1 = self.y + self.height as i64;
        if !(rx0 < rx1 && ry0 < ry1 && self.x < sx1 && self.y < sy1 && rx0 < sx1 && self.x < rx1
            && ry0 < sy1 && self.y < ry1) {
            return Err(());
        }
        if self.free_pixels == 0 {
            proof {
                self.lemma_full();
            }
            return Ok(0);
        }
        if !self.is_leaf_sized() {
            self.split();
            proof {
                self.lemma_split();
            }
            let ghost s1 = *self;
            let mut q = self.children.take().unwrap();
            let ghost q0 = *q;
            let a = match q.nw.fill_rect(x, y, width, height) {
                Ok(n) => n,
                Err(_) => 0,
            };
            let b = match q.ne.fill_rect(x, y, width, height) {
                Ok(n) => n,
                Err(_) => 0,
            };
            let c = match q.se.fill_rect(x, y, width, height) {
                Ok(n) => n,
                Err(_) => 0,
            };
            let d = match q.sw.fill_rect(x, y, width, height) {
                Ok(n) => n,
                Err(_) => 0,
            };
            proof {
                q.nw.lemma_wf_basic();
                q.ne.lemma_wf_basic();
                q.se.lemma_wf_basic();
                q.sw.lemma_wf_basic();
            }
            self.children = Some(q);
            let total = a + b + c + d;
            self.free_pixels = self.free_pixels - total;
            proof {
                assert forall|px: int, py: int| #[trigger]
                    self.has(px, py) == (old(self).has(px, py) || (old(self).in_domain(px, py)
                        && in_rect(px, py, x as int, y as int, width as int, height as int))) by {
                    s1.lemma_split_domain(q0, px, py);
                    assert(s1.has(px, py) == (q0.nw.has(px, py) || q0.ne.has(px, py) || q0.se.has(
                        px,
                        py,
                    ) || q0.sw.has(px, py)));
                    assert(self.has(px, py) == (q.nw.has(px, py) || q.ne.has(px, py) || q.se.has(
                        px,
                        py,
                    ) || q.sw.has(px, py)));
                }
            }
            Ok(total)
        } else {
            if self.grid.is_none() {
                let n = self.area_exec();
                self.grid = Some(new_grid(n as usize));
                proof {
                    assert forall|px: int, py: int| #[trigger]
                        self.has(px, py) == old(self).has(px, py) by {
                        if self.in_domain(px, py) {
                            lemma_index_bounds(
                                self.width as int,
                                self.height as int,
                                px - self.x,
                                py - self.y,
                            );
                        }
                    }
                }
            }
            let x0 = if rx0 > self.x {
                rx0
            } else {
                self.x
            };
            let y0 = if ry0 > self.y {
                ry0
            } else {
                self.y
            };
            let x1 = if rx1 < sx1 {
                rx1
            } else {
                sx1
            };
            let y1 = if ry1 < sy1 {
                ry1
            } else {
                sy1
            };
            let n = self.grid_fill(x0, y0, x1, y1, true);
            Ok(n)
        }
    }

    /// Some pixel of the rectangle at `(x, y)` is solid.
    pub open spec fn rect_solid(self, x: int, y: int, w: int, h: int) -> bool {
        exists|px: int, py: int| in_rect(px, py, x, y, w, h) && #[trigger] self.has(px, py)
    }

    /// No pixel is solid.
    pub open spec fn is_clear(self) -> bool {
        forall|px: int, py: int| !self.has(px, py)
    }

    proof fn lemma_clear_iff(self)
        requires
            self.wf(),
        ensures
            self.is_clear() <==> self.free_pixels == self.area(),
    {
        self.lemma_wf_basic();
        if self.free_pixels == self.area() {
            self.lemma_empty();
        } else {
            let p = self.lemma_not_empty();
            assert(self.has(p.0, p.1));
        }
    }

    /// Recursive worker of `remove_rect`.
    fn erase_rect(&mut self, x: i32, y: i32, width: u32, height: u32) -> (r: (bool, u32))
        requires
            old(self).wf(),
        ensures
            final(self).wf(),
            final(self).same_domain(*old(self)),
            removed_rect(*old(self), *final(self), x as int, y as int, width as int, height as int),
            final(self).free() == old(self).free() + r.1,
            r.0 == (old(self).meets(x as int, y as int, width as int, height as int)
                && final(self).is_clear()),
        decreases old(self).area(),
    {
        proof {
            self.lemma_wf_basic();
        }
        let rx0 = x as i64;
        let ry0 = y as i64;
        let rx1 = x as i64 + width as i64;
        let ry1 = y as i64 + height as i64;
        let sx1 = self.x + self.width as i64;
        let sy1 = self.y + self.height as i64;
        if !(rx0 < rx1 && ry0 < ry1 && self.x < sx1 && self.y < sy1 && rx0 < sx1 && self.x < rx1
            && ry0 < sy1 && self.y < ry1) {
            return (false, 0);
        }
        let area = self.area_exec();
        if self.free_pixels == area {
            proof {
                self.lemma_empty();
                self.lemma_clear_iff();
            }
            return (true, 0);
        }
        if rx0 <= self.x && sx1 <= rx1 && ry0 <= self.y && sy1 <= ry1 {
            let removed = area - self.free_pixels;
            self.children = None;
            self.grid = None;
            self.free_pixels = area;
            proof {
                self.lemma_clear_iff();
            }
            return (true, removed);
        }
        if self.children.is_some() {
            proof {
                self.lemma_split();
            }
            let mut q = self.children.take().unwrap();
            let ghost q0 = *q;
            let (_, a) = q.nw.erase_rect(x, y, width, height);
            let (_, b) = q.ne.erase_rect(x, y, width, height);
            let (_, c) = q.se.erase_rect(x, y, width, height);
            let (_, d) = q.sw.erase_rect(x, y, width, height);
            proof {
                q.nw.lemma_wf_basic();
                q.ne.lemma_wf_basic();
                q.se.lemma_wf_basic();
                q.sw.lemma_wf_basic();
            }
            let total = a + b + c + d;
            self.free_pixels = self.free_pixels + total;
            let all_free = q.nw.free_pixels == q.nw.area_exec() && q.ne.free_pixels
                == q.ne.area_exec() && q.se.free_pixels == q.se.area_exec() && q.sw.free_pixels
                == q.sw.area_exec();
            proof {
                if all_free {
                    q.nw.lemma_empty();
                    q.ne.lemma_empty();
                    q.se.lemma_empty();
                    q.sw.lemma_empty();
                }
            }
            let ghost q1 = *q;
            if all_free {
                self.children = None;
            } else {
                self.children = Some(q);
            }
            proof {
                assert forall|px: int, py: int| #[trigger]
                    self.has(px, py) == (old(self).has(px, py) && !in_rect(
                        px,
                        py,
                        x as int,
                        y as int,
                        width as int,
                        height as int,
                    )) by {
                    old(self).lemma_split_domain(q0, px, py);
                    assert(old(self).has(px, py) == (q0.nw.has(px, py) || q0.ne.has(px, py)
                        || q0.se.has(px, py) || q0.sw.has(px, py)));
                    assert(q1.nw.has(px, py) == (q0.nw.has(px, py) && !in_rect(px, py, x as int, y as int, width as int, height as int)));
                    assert(q1.ne.has(px, py) == (q0.ne.has(px, py) && !in_rect(px, py, x as int, y as int, width as int, height as int)));
                    assert(q1.se.has(px, py) == (q0.se.has(px, py) && !in_rect(px, py, x as int, y as int, width as int, height as int)));
                    assert(q1.sw.has(px, py) == (q0.sw.has(px, py) && !in_rect(px, py, x as int, y as int, width as int, height as int)));
                    if all_free {
                        assert(!self.has(px, py));
                    } else {
                        assert(self.has(px, py) == (q1.nw.has(px, py) || q1.ne.has(px, py)
                            || q1.se.has(px, py) || q1.sw.has(px, py)));
                    }
                }
                self.lemma_clear_iff();
            }
            let empty = self.free_pixels == area;
            (empty, total)
        } else if self.grid.is_some() {
            let x0 = if rx0 > self.x {
                rx0
            } else {
                self.x
            };
            let y0 = if ry0 > self.y {
                ry0
            } else {
                self.y
            };
            let x1 = if rx1 < sx1 {
                rx1
            } else {
                sx1
            };
            let y1 = if ry1 < sy1 {
                ry1
            } else {
                sy1
            };
            let n = self.grid_fill(x0, y0, x1, y1, false);
            proof {
                self.lemma_clear_iff();
            }
            let empty = self.free_pixels == area;
            if empty {
                let ghost s1 = *self;
                proof {
                    s1.lemma_empty();
                }
                self.grid = None;
                proof {
                    assert forall|px: int, py: int| #[trigger] self.has(px, py) == s1.has(px, py) by {}
                }
            }
            (empty, n)
        } else {
            (true, 0)
        }
    }

    /// Whether some pixel of the rectangle at `(x, y)` is solid.
    pub fn check_rect(&self, x: i32, y: i32, width: u32, height: u32) -> (r: bool)
        requires
            self.wf(),
        ensures
            r == self.rect_solid(x as int, y as int, width as int, height as int),
        decreases self,
    {
        proof {
            self.lemma_wf_basic();
        }
        let rx0 = x as i64;
        let ry0 = y as i64;
        let rx1 = x as i64 + width as i64;
        let ry1 = y as i64 + height as i64;
        let sx1 = self.x + self.width as i64;
        let sy1 = self.y + self.height as i64;
        if !(rx0 < rx1 && ry0 < ry1 && self.x < sx1 && self.y < sy1 && rx0 < sx1 && self.x < rx1
            && ry0 < sy1 && self.y < ry1) {
            return false;
        }
        let x0 = if rx0 > self.x {
            rx0
        } else {
            self.x
        };
        let y0 = if ry0 > self.y {
            ry0
        } else {
            self.y
        };
        if self.free_pixels == 0 {
            proof {
                self.lemma_full();
                assert(self.has(x0 as int, y0 as int));
            }
            return true;
        }
        let area = self.area_exec();
        if self.free_pixels == area {
            proof {
                self.lemma_empty();
            }
            return false;
        }
        if rx0 <= self.x && sx1 <= rx1 && ry0 <= self.y && sy1 <= ry1 {
            proof {
                let p = self.lemma_not_empty();
                assert(self.has(p.0, p.1));
            }
            return true;
        }
        match &self.grid {
            Some(_) => {
                let x1 = if rx1 < sx1 {
                    rx1
                } else {
                    sx1
                };
                let y1 = if ry1 < sy1 {
                    ry1
                } else {
                    sy1
                };
                self.grid_any(x0, y0, x1, y1)
            },
            None => match &self.children {
                Some(q) => {
                    proof {
                        self.lemma_split();
                    }
                    if q.nw.check_rect(x, y, width, height) {
                        proof {
                            let (px, py) = choose|px: int, py: int|
                                in_rect(px, py, x as int, y as int, width as int, height as int)
                                    && #[trigger] q.nw.has(px, py);
                            assert(self.has(px, py));
                        }
                        return true;
                    }
                    if q.ne.check_rect(x, y, width, height) {
                        proof {
                            let (px, py) = choose|px: int, py: int|
                                in_rect(px, py, x as int, y as int, width as int, height as int)
                                    && #[trigger] q.ne.has(px, py);
                            assert(self.has(px, py));
                        }
                        return true;
                    }
                    if q.se.check_rect(x, y, width, height) {
                        proof {
                            let (px, py) = choose|px: int, py: int|
                                in_rect(px, py, x as int, y as int, width as int, height as int)
                                    && #[trigger] q.se.has(px, py);
                            assert(self.has(px, py));
                        }
                        return true;
                    }
                    if q.sw.check_rect(x, y, width, height) {
                        proof {
                            let (px, py) = choose|px: int, py: int|
                                in_rect(px, py, x as int, y as int, width as int, height as int)
                                    && #[trigger] q.sw.has(px, py);
                            assert(self.has(px, py));
                        }
                        return true;
                    }
                    proof {
                        assert forall|px: int, py: int|
                            in_rect(
                                px,
                                py,
                                x as int,
                                y as int,
                                width as int,
                                height as int,
                            ) implies !#[trigger] self.has(px, py) by {
                            assert(!q.nw.has(px, py) && !q.ne.has(px, py));
                            assert(!q.se.has(px, py) && !q.sw.has(px, py));
                        }
                    }
                    false
                },
                None => false,
            },
        }
    }
    /// The solid pixels.
    pub open spec fn solid_set(self) -> Set<(int, int)> {
        Set::new(|p: (int, int)| self.has(p.0, p.1))
    }

    spec fn grid_point(self, i: int) -> (int, int) {
        (self.x + i % (self.width as int), self.y + i / (self.width as int))
    }

    /// Pixels of the grid cells `0 .. n` that are set in `g`.
    spec fn grid_set(self, g: Seq<bool>, n: int) -> Set<(int, int)>
        decreases n,
    {
        if n <= 0 {
            Set::empty()
        } else if g[n - 1] {
            self.grid_set(g, n - 1).insert(self.grid_point(n - 1))
        } else {
            self.grid_set(g, n - 1)
        }
    }

    proof fn lemma_grid_set(self, g: Seq<bool>, n: int)
        requires
            self.wf(),
            self.children.is_none(),
            self.grid.is_some(),
            self.grid->Some_0@ == g,
            0 <= n <= g.len(),
        ensures
            self.grid_set(g, n).finite(),
            self.grid_set(g, n).len() == count_true(g.subrange(0, n)),
            forall|p: (int, int)|
                #[trigger] self.grid_set(g, n).contains(p) <==> (self.in_domain(p.0, p.1)
                    && self.index_of(p.0, p.1) < n && g[self.index_of(p.0, p.1)]),
        decreases n,
    {
        self.lemma_wf_basic();
        if n == 0 {
            assert(g.subrange(0, 0).len() == 0);
            assert forall|p: (int, int)|
                #[trigger] self.grid_set(g, n).contains(p) <==> (self.in_domain(p.0, p.1)
                    && self.index_of(p.0, p.1) < n && g[self.index_of(p.0, p.1)]) by {
                if self.in_domain(p.0, p.1) {
                    lemma_index_bounds(self.width as int, self.height as int, p.0 - self.x, p.1 - self.y);
                }
            }
        } else {
            self.lemma_grid_set(g, n - 1);
            assert(g.subrange(0, n).drop_last() =~= g.subrange(0, n - 1));
            let i = n - 1;
            assert(self.width > 0) by (nonlinear_arith)
                requires
                    self.width as int * self.height as int >= n,
                    n > 0,
            ;
            lemma_index_inverse(self.width as int, self.height as int, i);
            let pt = self.grid_point(i);
            assert(self.in_domain(pt.0, pt.1));
            assert(self.index_of(pt.0, pt.1) == i);
            assert forall|p: (int, int)|
                #[trigger] self.grid_set(g, n).contains(p) <==> (self.in_domain(p.0, p.1)
                    && self.index_of(p.0, p.1) < n && g[self.index_of(p.0, p.1)]) by {
                if self.in_domain(p.0, p.1) {
                    lemma_index_bounds(self.width as int, self.height as int, p.0 - self.x, p.1 - self.y);
                    if self.index_of(p.0, p.1) == i {
                        lemma_index_injective(
                            self.width as int,
                            p.0 - self.x,
                            p.1 - self.y,
                            pt.0 - self.x,
                            pt.1 - self.y,
                        );
                    }
                }
                if p == pt {
                    assert(self.index_of(p.0, p.1) == i);
                }
            }
        }
    }

    /// The stored count is the number of solid pixels.
    proof fn lemma_solid_count(self)
        requires
            self.wf(),
        ensures
            self.solid_set().finite(),
            self.solid_set().len() == self.count(),
        decreases self,
    {
        match self.children {
            Some(q) => {
                self.lemma_split();
                q.nw.lemma_solid_count();
                q.ne.lemma_solid_count();
                q.se.lemma_solid_count();
                q.sw.lemma_solid_count();
                let a = q.nw.solid_set();
                let b = q.ne.solid_set();
                let c = q.se.solid_set();
                let d = q.sw.solid_set();
                assert forall|p: (int, int)|
                    #[trigger] self.solid_set().contains(p) <==> (a + b + c + d).contains(p) by {
                    self.lemma_split_domain(*q, p.0, p.1);
                }
                assert forall|p: (int, int)| #[trigger] a.contains(p) implies !b.contains(p)
                    && !c.contains(p) && !d.contains(p) by {
                    self.lemma_split_domain(*q, p.0, p.1);
                }
                assert forall|p: (int, int)| #[trigger] b.contains(p) implies !c.contains(p)
                    && !d.contains(p) by {
                    self.lemma_split_domain(*q, p.0, p.1);
                }
                assert forall|p: (int, int)| #[trigger] c.contains(p) implies !d.contains(p) by {
                    self.lemma_split_domain(*q, p.0, p.1);
                }
                assert(self.solid_set() =~= a + b + c + d);
                assert(a.disjoint(b));
                assert((a + b).disjoint(c));
                assert((a + b + c).disjoint(d));
                vstd::set_lib::lemma_set_disjoint_lens(a, b);
                vstd::set_lib::lemma_set_disjoint_lens(a + b, c);
                vstd::set_lib::lemma_set_disjoint_lens(a + b + c, d);
            },
            None => match self.grid {
                Some(g) => {
                    self.lemma_wf_basic();
                    self.lemma_grid_set(g@, g@.len() as int);
                    assert(g@.subrange(0, g@.len() as int) =~= g@);
                    assert forall|p: (int, int)| #[trigger]
                        self.solid_set().contains(p) <==> self.grid_set(
                            g@,
                            g@.len() as int,
                        ).contains(p) by {
                        if self.in_domain(p.0, p.1) {
                            lemma_index_bounds(
                                self.width as int,
                                self.height as int,
                                p.0 - self.x,
                                p.1 - self.y,
                            );
                        }
                    }
                    assert(self.solid_set() =~= self.grid_set(g@, g@.len() as int));
                },
                None => {
                    assert(self.solid_set() =~= Set::<(int, int)>::empty());
                },
            },
        }
    }

    /// Marks the pixel `(x, y)` solid. `Err` outside the domain; otherwise
    /// `Ok(true)` when the pixel was free before, `Ok(false)` when it was
    /// already solid.
    pub fn insert(&mut self, x: i32, y: i32) -> (r: Result<bool, ()>)
        requires
            old(self).wf(),
        ensures
            final(self).wf(),
            final(self).same_domain(*old(self)),
            r == point_insert_result(old(self).in_domain(x as int, y as int), old(self).has(x as int, y as int)),
            inserted_point(*old(self), *final(self), x as int, y as int),
            final(self).free() + (if r == Ok::<bool, ()>(true) {
                1int
            } else {
                0int
            }) == old(self).free(),
    {
        self.insert_point(x, y)
    }

    /// Marks every pixel of the rectangle at `(x, y)` that lies in the domain
    /// solid, and returns how many of them were free before. `Err` when the
    /// rectangle shares no pixel with the domain; a rectangle with a zero side
    /// changes nothing, and fails only when anchored outside the domain.
    pub fn insert_rect(&mut self, x: i32, y: i32, width: u32, height: u32) -> (r: Result<u32, ()>)
        requires
            old(self).wf(),
        ensures
            final(self).wf(),
            final(self).same_domain(*old(self)),
            r is Err <==> rect_insert_fails(*old(self), x as int, y as int, width as int, height as int),
            inserted_rect(*old(self), *final(self), x as int, y as int, width as int, height as int),
            r matches Ok(n) ==> final(self).solid_set().len() == old(self).solid_set().len() + n,
            r matches Ok(n) ==> final(self).free() + n == old(self).free(),
            r is Err ==> final(self).free() == old(self).free(),
    {
        if width == 0 || height == 0 {
            // a degenerate rectangle covers no pixel: a no-op when anchored in the domain
            proof {
                old(self).lemma_solid_count();
                assert forall|px: int, py: int| #[trigger]
                    self.has(px, py) == (old(self).has(px, py) || (old(self).in_domain(px, py)
                        && in_rect(px, py, x as int, y as int, width as int, height as int))) by {}
            }
            if self.contains(x as i64, y as i64) {
                return Ok(0);
            } else {
                return Err(());
            }
        }
        let r = self.fill_rect(x, y, width, height);
        proof {
            old(self).lemma_solid_count();
            self.lemma_solid_count();
            old(self).lemma_wf_basic();
            self.lemma_wf_basic();
        }
        r
    }

    /// Makes every pixel of the rectangle at `(x, y)` free. Returns whether
    /// the rectangle met the domain and the whole tree is now free, and how
    /// many solid pixels were cleared.
    pub fn remove_rect(&mut self, x: i32, y: i32, width: u32, height: u32) -> (r: (bool, u32))
        requires
            old(self).wf(),
        ensures
            final(self).wf(),
            final(self).same_domain(*old(self)),
            removed_rect(*old(self), *final(self), x as int, y as int, width as int, height as int),
            old(self).solid_set().len() == final(self).solid_set().len() + r.1,
            r.1 > 0 <==> old(self).rect_solid(x as int, y as int, width as int, height as int),
            final(self).free() == old(self).free() + r.1,
            r.0 == (old(self).meets(x as int, y as int, width as int, height as int)
                && final(self).is_clear()),
    {
        let r = self.erase_rect(x, y, width, height);
        proof {
            old(self).lemma_solid_count();
            self.lemma_solid_count();
            old(self).lemma_wf_basic();
            self.lemma_wf_basic();
            let s0 = old(self).solid_set();
            let s1 = self.solid_set();
            assert(s1.subset_of(s0));
            if old(self).rect_solid(x as int, y as int, width as int, height as int) {
                let (px, py) = choose|px: int, py: int|
                    in_rect(px, py, x as int, y as int, width as int, height as int) && #[trigger] old(
                        self,
                    ).has(px, py);
                assert(s1.subset_of(s0.remove((px, py))));
                vstd::set_lib::lemma_len_subset(s1, s0.remove((px, py)));
                assert(s0.contains((px, py)));
            }
            if r.1 > 0 {
                assert(s0 != s1);
                if !old(self).rect_solid(x as int, y as int, width as int, height as int) {
                    assert(s0 =~= s1);
                }
            }
        }
        r
    }
}

/// One change made to a tree through its public operations.
pub enum TreeEdit {
    /// `insert(x, y)`
    Point(i32, i32),
    /// `insert_rect(x, y, w, h)`
    Fill(i32, i32, u32, u32),
    /// `remove_rect(x, y, w, h)`
    Erase(i32, i32, u32, u32),
    /// `clear()`
    Clear,
}

/// `t1` is what the operation `e` leaves of `t0`, as that operation's contract states it.
pub open spec fn edit_applied(t0: CollisionTree, t1: CollisionTree, e: TreeEdit) -> bool {
    &&& t1.same_domain(t0)
    &&& match e {
        TreeEdit::Point(x, y) => inserted_point(t0, t1, x as int, y as int),
        TreeEdit::Fill(x, y, w, h) => inserted_rect(t0, t1, x as int, y as int, w as int, h as int),
        TreeEdit::Erase(x, y, w, h) => removed_rect(t0, t1, x as int, y as int, w as int, h as int),
        TreeEdit::Clear => t1.is_clear(),
    }
}

/// The edit `e` is an insertion whose coverage includes `(px, py)`.
pub open spec fn edit_covers(e: TreeEdit, px: int, py: int) -> bool {
    match e {
        TreeEdit::Point(x, y) => px == x && py == y,
        TreeEdit::Fill(x, y, w, h) => in_rect(px, py, x as int, y as int, w as int, h as int),
        _ => false,
    }
}

/// The edit `e` is a removal whose coverage includes `(px, py)`.
pub open spec fn edit_uncovers(e: TreeEdit, px: int, py: int) -> bool {
    match e {
        TreeEdit::Erase(x, y, w, h) => in_rect(px, py, x as int, y as int, w as int, h as int),
        TreeEdit::Clear => true,
        _ => false,
    }
}

/// Some insertion among `edits` covers `(px, py)` and no later removal covers it.
pub open spec fn inserted_and_kept(edits: Seq<TreeEdit>, px: int, py: int) -> bool {
    exists|i: int|
        0 <= i < edits.len() && #[trigger] edit_covers(edits[i], px, py) && forall|j: int|
            i < j < edits.len() ==> !#[trigger] edit_uncovers(edits[j], px, py)
}

/// For every tree node the free-pixel counter plus the number of solid cells
/// stored in its grids equals its area; the counter is the area exactly when
/// no pixel is solid, and zero only when every pixel of the domain is solid.
pub proof fn lemma_free_pixels_account(t: CollisionTree)
    requires
        t.wf(),
    ensures
        t.free() + t.count() == t.area(),
        t.solid_set().finite(),
        t.count() == t.solid_set().len(),
        t.free() == t.area() <==> t.is_clear(),
        t.free() == 0 ==> forall|px: int, py: int| t.in_domain(px, py) ==> t.has(px, py),
        forall|px: int, py: int| t.has(px, py) ==> t.in_domain(px, py),
{
    t.lemma_wf_basic();
    t.lemma_clear_iff();
    t.lemma_solid_count();
    if t.free_pixels == 0 {
        t.lemma_full();
    }
}

/// Filling a rectangle and then removing the same rectangle leaves no solid
/// pixel in any rectangle inside it.
pub proof fn lemma_fill_then_erase(
    t0: CollisionTree,
    t1: CollisionTree,
    t2: CollisionTree,
    x: int,
    y: int,
    w: int,
    h: int,
    sx: int,
    sy: int,
    sw: int,
    sh: int,
)
    requires
        inserted_rect(t0, t1, x, y, w, h),
        removed_rect(t1, t2, x, y, w, h),
        x <= sx,
        y <= sy,
        sx + sw <= x + w,
        sy + sh <= y + h,
    ensures
        !t2.rect_solid(sx, sy, sw, sh),
{
    assert forall|px: int, py: int| in_rect(px, py, sx, sy, sw, sh) implies !#[trigger] t2.has(
        px,
        py,
    ) by {
        assert(in_rect(px, py, x, y, w, h));
    }
}

/// Inserting a free pixel of the domain twice reports `Ok(true)`, then `Ok(false)`.
pub proof fn lemma_insert_twice(t0: CollisionTree, t1: CollisionTree, x: int, y: int)
    requires
        t0.in_domain(x, y),
        !t0.has(x, y),
        t1.same_domain(t0),
        inserted_point(t0, t1, x, y),
    ensures
        point_insert_result(t0.in_domain(x, y), t0.has(x, y)) == Ok::<bool, ()>(true),
        point_insert_result(t1.in_domain(x, y), t1.has(x, y)) == Ok::<bool, ()>(false),
{
    assert(t1.has(x, y));
}

/// Removing a rectangle that meets the domain of a tree with no solid pixel
/// reports `(true, 0)`.
pub proof fn lemma_erase_clear(
    t0: CollisionTree,
    t1: CollisionTree,
    x: int,
    y: int,
    w: int,
    h: int,
    r: (bool, u32),
)
    requires
        t0.wf(),
        t1.wf(),
        t1.same_domain(t0),
        t0.is_clear(),
        t0.meets(x, y, w, h),
        removed_rect(t0, t1, x, y, w, h),
        t1.free() == t0.free() + r.1,
        r.0 == (t0.meets(x, y, w, h) && t1.is_clear()),
    ensures
        r == (true, 0u32),
{
    t0.lemma_clear_iff();
    t1.lemma_wf_basic();
    assert forall|px: int, py: int| !t1.has(px, py) by {
        assert(!t0.has(px, py));
    }
}

/// Starting from a tree with no solid pixel, after any sequence of edits a
/// pixel is solid exactly when it lies in the domain, some insertion covered
/// it, and no later removal covered it.
pub proof fn lemma_solid_iff_inserted_and_kept(
    trees: Seq<CollisionTree>,
    edits: Seq<TreeEdit>,
    px: int,
    py: int,
)
    requires
        trees.len() == edits.len() + 1,
        trees[0].is_clear(),
        forall|i: int| 0 <= i < edits.len() ==> edit_applied(trees[i], trees[i + 1], #[trigger] edits[i]),
    ensures
        trees.last().same_domain(trees[0]),
        trees.last().has(px, py) <==> (trees[0].in_domain(px, py) && inserted_and_kept(edits, px, py)),
    decreases edits.len(),
{
    let n = edits.len() as int;
    if n == 0 {
        assert(!trees[0].has(px, py));
    } else {
        let ts = trees.drop_last();
        let es = edits.drop_last();
        assert forall|i: int| 0 <= i < es.len() implies edit_applied(ts[i], ts[i + 1], #[trigger] es[i]) by {
            assert(edit_applied(trees[i], trees[i + 1], edits[i]));
        }
        lemma_solid_iff_inserted_and_kept(ts, es, px, py);
        let t0 = trees[n - 1];
        let t1 = trees[n];
        let e = edits[n - 1];
        assert(edit_applied(t0, t1, e));
        assert(ts.last() == t0);
        assert(t1.has(px, py) == (t0.has(px, py) && !edit_uncovers(e, px, py)) || (t0.in_domain(
            px,
            py,
        ) && edit_covers(e, px, py)));
        if inserted_and_kept(edits, px, py) {
            let i = choose|i: int|
                0 <= i < edits.len() && #[trigger] edit_covers(edits[i], px, py) && forall|j: int|
                    i < j < edits.len() ==> !#[trigger] edit_uncovers(edits[j], px, py);
            if i < n - 1 {
                assert(es[i] == edits[i]);
                assert forall|j: int| i < j < es.len() implies !#[trigger] edit_uncovers(
                    es[j],
                    px,
                    py,
                ) by {
                    assert(es[j] == edits[j]);
                }
                assert(inserted_and_kept(es, px, py));
                assert(!edit_uncovers(edits[n - 1], px, py));
            }
        }
        if inserted_and_kept(es, px, py) && !edit_uncovers(e, px, py) {
            let i = choose|i: int|
                0 <= i < es.len() && #[trigger] edit_covers(es[i], px, py) && forall|j: int|
                    i < j < es.len() ==> !#[trigger] edit_uncovers(es[j], px, py);
            assert(edits[i] == es[i]);
            assert forall|j: int| i < j < edits.len() implies !#[trigger] edit_uncovers(
                edits[j],
                px,
                py,
            ) by {
                if j < n - 1 {
                    assert(es[j] == edits[j]);
                }
            }
            assert(inserted_and_kept(edits, px, py));
        }
        if edit_covers(e, px, py) {
            assert(!edit_uncovers(e, px, py));
            assert(edit_covers(edits[n - 1], px, py));
            assert(inserted_and_kept(edits, px, py));
        }
    }
}

} // verus!
