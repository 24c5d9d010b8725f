//! The queue of world tiles whose rendering is stale after the maps changed.
//!
//! An entry `(layer, tile_x, tile_y)` names one `TILE_SIZE` square of one
//! layer; each entry is queued once, in the order it was first marked, until
//! the renderer takes it.
use indexmap::IndexSet;
use vstd::prelude::*;

verus! {

/// Side of a render tile, in world pixels.
pub const TILE_SIZE: i32 = 256;

/// Layer of the background map.
pub const LAYER_BACKGROUND: u32 = 0;

/// Layer of the terrain map.
pub const LAYER_TERRAIN: u32 = 1;

/// Layer of the foreground map.
pub const LAYER_FOREGROUND: u32 = 2;

#[verifier::external_type_specification]
#[verifier::external_body]
#[verifier::reject_recursive_types(T)]
#[verifier::reject_recursive_types(S)]
pub struct ExIndexSet<T, S>(IndexSet<T, S>);

/// The entries of an index set, in index order.
pub uninterp spec fn tile_entries(s: IndexSet<(u32, i32, i32)>) -> Seq<(u32, i32, i32)>;

/// Relies on `IndexSet::new`: a set with no entries.
#[verifier::external_body]
fn set_new() -> (s: IndexSet<(u32, i32, i32)>)
    ensures
        tile_entries(s) == Seq::<(u32, i32, i32)>::empty(),
{
    IndexSet::new()
}

/// Relies on `IndexSet::insert`: an absent value is appended and `true`
/// returned; a present one leaves the set and its order as they were.
#[verifier::external_body]
fn set_insert(s: &mut IndexSet<(u32, i32, i32)>, v: (u32, i32, i32)) -> (r: bool)
    ensures
        r == !tile_entries(*old(s)).contains(v),
        tile_entries(*final(s)) == if r {
            tile_entries(*old(s)).push(v)
        } else {
            tile_entries(*old(s))
        },
{
    s.insert(v)
}

/// Relies on `IndexSet::len`: the number of entries.
#[verifier::external_body]
fn set_len(s: &IndexSet<(u32, i32, i32)>) -> (r: usize)
    ensures
        r == tile_entries(*s).len(),
{
    s.len()
}

/// Relies on `IndexSet::get_index`: the entry at an index below the length.
#[verifier::external_body]
fn set_get(s: &IndexSet<(u32, i32, i32)>, i: usize) -> (r: Option<(u32, i32, i32)>)
    ensures
        r == if i < tile_entries(*s).len() {
            Some(tile_entries(*s)[i as int])
        } else {
            None::<(u32, i32, i32)>
        },
{
    s.get_index(i).copied()
}

/// Relies on `IndexSet::swap_remove_index`: the entry at `i` is returned and
/// the last entry takes its place.
#[verifier::external_body]
fn set_swap_remove(s: &mut IndexSet<(u32, i32, i32)>, i: usize) -> (r: Option<(u32, i32, i32)>)
    requires
        i < tile_entries(*old(s)).len(),
    ensures
        r == Some(tile_entries(*old(s))[i as int]),
        tile_entries(*final(s)) == tile_entries(*old(s)).update(
            i as int,
            tile_entries(*old(s)).last(),
        ).drop_last(),
{
    s.swap_remove_index(i)
}

/// Index of the tile that holds world pixel `p` (rounding down).
pub open spec fn tile_of(p: int) -> int {
    p / (TILE_SIZE as int)
}

/// Index of the tile that holds world pixel `p`.
pub fn tile_index(p: i32) -> (r: i32)
    ensures
        r == tile_of(p as int),
{
    if p >= 0 {
        p / TILE_SIZE
    } else {
        let q = (-(p as i64) + 255) / 256;
        proof {
            let a = p as int;
            vstd::arithmetic::div_mod::lemma_fundamental_div_mod(a, 256);
            vstd::arithmetic::div_mod::lemma_fundamental_div_mod(-a + 255, 256);
        }
        (-q) as i32
    }
}

/// The tile `(tx, ty)` overlaps the rectangle at `(x, y)` of size `w` by `h`.
pub open spec fn tile_meets_rect(tx: int, ty: int, x: int, y: int, w: int, h: int) -> bool {
    &&& w > 0 && h > 0
    &&& tile_of(x) <= tx <= tile_of(x + w - 1)
    &&& tile_of(y) <= ty <= tile_of(y + h - 1)
}

/// Stale render tiles, each queued once.
pub struct TileQueue {
    set: IndexSet<(u32, i32, i32)>,
}

impl View for TileQueue {
    type V = Seq<(u32, i32, i32)>;

    closed spec fn view(&self) -> Seq<(u32, i32, i32)> {
        tile_entries(self.set)
    }
}

impl TileQueue {
    /// No entry is queued twice.
    pub open spec fn wf(&self) -> bool {
        self@.no_duplicates()
    }

    pub fn new() -> (q: Self)
        ensures
            q.wf(),
            q@ == Seq::<(u32, i32, i32)>::empty(),
    {
        TileQueue { set: set_new() }
    }

    /// Queues `(layer, tx, ty)` unless it is queued already.
    pub fn mark(&mut self, layer: u32, tx: i32, ty: i32) -> (added: bool)
        requires
            old(self).wf(),
        ensures
            final(self).wf(),
            added == !old(self)@.contains((layer, tx, ty)),
            final(self)@ == if added {
                old(self)@.push((layer, tx, ty))
            } else {
                old(self)@
            },
    {
        set_insert(&mut self.set, (layer, tx, ty))
    }

    pub fn len(&self) -> (r: usize)
        ensures
            r == self@.len(),
    {
        set_len(&self.set)
    }

    /// The entry at index `i`, if there is one.
    pub fn get(&self, i: usize) -> (r: Option<(u32, i32, i32)>)
        ensures
            r == if i < self@.len() {
                Some(self@[i as int])
            } else {
                None::<(u32, i32, i32)>
            },
    {
        set_get(&self.set, i)
    }

    /// Removes and returns the entry at index `i`; the last entry moves to `i`.
    pub fn take(&mut self, i: usize) -> (r: (u32, i32, i32))
        requires
            old(self).wf(),
            i < old(self)@.len(),
        ensures
            final(self).wf(),
            r == old(self)@[i as int],
            final(self)@ == old(self)@.update(i as int, old(self)@.last()).drop_last(),
            forall|t: (u32, i32, i32)| final(self)@.contains(t) <==> (old(self)@.contains(t) && t != r),
    {
        let ghost s0 = self@;
        let r = set_swap_remove(&mut self.set, i);
        let ghost s1 = self@;
        proof {
            let n = s0.len() - 1;
            assert forall|a: int, b: int| 0 <= a < s1.len() && 0 <= b < s1.len() && a != b implies s1[a]
                != s1[b] by {
                let ia = if a == i {
                    n
                } else {
                    a
                };
                let ib = if b == i {
                    n
                } else {
                    b
                };
                assert(s1[a] == s0[ia] && s1[b] == s0[ib]);
            }
            assert forall|t: (u32, i32, i32)| s1.contains(t) <==> (s0.contains(t) && t != s0[i as int]) by {
                if s1.contains(t) {
                    let a = choose|a: int| 0 <= a < s1.len() && s1[a] == t;
                    let ia = if a == i {
                        n
                    } else {
                        a
                    };
                    assert(s0[ia] == t);
                }
                if s0.contains(t) && t != s0[i as int] {
                    let a = choose|a: int| 0 <= a < s0.len() && s0[a] == t;
                    if a == n {
                        assert(s1[i as int] == t);
                    } else {
                        assert(s1[a] == t);
                    }
                }
            }
        }
        r.unwrap()
    }

    /// Queues, on `layer`, every tile that overlaps the rectangle at `(x, y)`
    /// of size `w` by `h`, keeping the entries already queued in place.
    pub fn mark_rect(&mut self, layer: u32, x: i32, y: i32, w: u32, h: u32)
        requires
            old(self).wf(),
            x + w <= i32::MAX,
            y + h <= i32::MAX,
        ensures
            final(self).wf(),
            final(self)@.len() >= old(self)@.len(),
            final(self)@.subrange(0, old(self)@.len() as int) == old(self)@,
            forall|t: (u32, i32, i32)|
                #[trigger] final(self)@.contains(t) <==> (old(self)@.contains(t) || (t.0 == layer
                    && tile_meets_rect(t.1 as int, t.2 as int, x as int, y as int, w as int, h as int))),
    {
        if w == 0 || h == 0 {
            return;
        }
        let ghost s0 = self@;
        let tx0 = tile_index(x);
        let tx1 = tile_index((x as i64 + w as i64 - 1) as i32);
        let ty0 = tile_index(y);
        let ty1 = tile_index((y as i64 + h as i64 - 1) as i32);
        let mut tx = tx0;
        while tx <= tx1
            invariant
                self.wf(),
                tx0 == tile_of(x as int),
                tx1 == tile_of(x + w - 1),
                ty0 == tile_of(y as int),
                ty1 == tile_of(y + h - 1),
                tx0 <= tx <= tx1 + 1,
                tx1 < i32::MAX,
                w > 0 && h > 0,
                self@.len() >= s0.len(),
                self@.subrange(0, s0.len() as int) == s0,
                forall|t: (u32, i32, i32)|
                    #[trigger] self@.contains(t) <==> (s0.contains(t) || (t.0 == layer && tx0 <= t.1
                        < tx && ty0 <= t.2 <= ty1)),
            decreases tx1 + 1 - tx,
        {
            let mut ty = ty0;
            while ty <= ty1
                invariant
                    self.wf(),
                    tx0 <= tx <= tx1,
                    ty0 == tile_of(y as int),
                    ty1 == tile_of(y + h - 1),
                    ty0 <= ty <= ty1 + 1,
                    ty1 < i32::MAX,
                    self@.len() >= s0.len(),
                    self@.subrange(0, s0.len() as int) == s0,
                    forall|t: (u32, i32, i32)|
                        #[trigger] self@.contains(t) <==> (s0.contains(t) || (t.0 == layer && ((tx0
                            <= t.1 < tx && ty0 <= t.2 <= ty1) || (t.1 == tx && ty0 <= t.2 < ty)))),
                decreases ty1 + 1 - ty,
            {
                let ghost before = self@;
                self.mark(layer, tx, ty);
                proof {
                    assert(self@.subrange(0, s0.len() as int) =~= before.subrange(0, s0.len() as int));
                    assert forall|t: (u32, i32, i32)| #[trigger] self@.contains(t) <==> (before.contains(t) || t == (layer, tx, ty)) by {
                        if self@ != before {
                            if self@.contains(t) && t != (layer, tx, ty) {
                                let a = choose|a: int| 0 <= a < self@.len() && self@[a] == t;
                                assert(before[a] == t);
                            }
                            if before.contains(t) {
                                let a = choose|a: int| 0 <= a < before.len() && before[a] == t;
                                assert(self@[a] == t);
                            }
                            assert(self@[before.len() as int] == (layer, tx, ty));
                        }
                    }
                }
                ty = ty + 1;
            }
            tx = tx + 1;
        }
        proof {
            assert forall|t: (u32, i32, i32)|
                #[trigger] self@.contains(t) <==> (s0.contains(t) || (t.0 == layer
                    && tile_meets_rect(t.1 as int, t.2 as int, x as int, y as int, w as int, h as int))) by {
                assert(self@.contains(t) <==> (s0.contains(t) || (t.0 == layer && tx0 <= t.1 < tx
                    && ty0 <= t.2 <= ty1)));
            }
        }
    }
}

} // verus!
