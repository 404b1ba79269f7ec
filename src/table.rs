//! The four-level page table behind the mapper.
//!
//! Tables of 512 slots are laid end to end in one vector: table `k` holds
//! slots `k * 512 .. k * 512 + 512`, and table 0 is the root. A slot is
//! empty, links to a table one level down, or, at the lowest level, holds a
//! mapping. A page number is split into four 9-bit indices, one per level,
//! and looked up by walking from the root. Tables below the root are made on
//! demand, empty, the first time a walk needs them; they are kept in the
//! table's own storage rather than in frames of the ledger.

use vstd::prelude::*;
use crate::mapper::PageEntry;

verus! {

/// Pages that the table can map: page numbers below 2^36 (48-bit addresses).
pub const PAGE_LIMIT: u64 = 0x10_0000_0000;

/// One slot of a table.
#[derive(Clone, Copy, Debug, PartialEq, Eq, Structural)]
pub enum Slot {
    Empty,
    Next(usize),
    Leaf(PageEntry),
}

/// Slot `i` of table `k` in the slots `t`; empty outside them.
pub open spec fn slot(t: Seq<Slot>, k: int, i: int) -> Slot {
    if 0 <= k && 0 <= i < 512 && k * 512 + i < t.len() { t[k * 512 + i] } else { Slot::Empty }
}

/// The index that page `p` uses at each level, from the root (3) down (0).
pub open spec fn index3(p: int) -> int { p / 0x800_0000 }
pub open spec fn index2(p: int) -> int { (p / 0x4_0000) % 512 }
pub open spec fn index1(p: int) -> int { (p / 512) % 512 }
pub open spec fn index0(p: int) -> int { p % 512 }

/// The mapping that a walk from the root finds for page `p`.
pub open spec fn walk(t: Seq<Slot>, p: int) -> Option<PageEntry> {
    match slot(t, 0, index3(p)) {
        Slot::Next(a) => match slot(t, a as int, index2(p)) {
            Slot::Next(b) => match slot(t, b as int, index1(p)) {
                Slot::Next(c) => match slot(t, c as int, index0(p)) {
                    Slot::Leaf(e) => Some(e),
                    _ => None,
                },
                _ => None,
            },
            _ => None,
        },
        _ => None,
    }
}

/// The slots form a tree under the root: each table has a level and the
/// prefix of page numbers it serves; a link goes one level down, to a
/// table below the root whose prefix extends its parent's by the slot's
/// index; mappings sit only at the lowest level.
pub open spec fn tree_ok(t: Seq<Slot>, lv: Seq<int>, pf: Seq<int>) -> bool {
    &&& t.len() >= 512
    &&& t.len() % 512 == 0
    &&& lv.len() == t.len() / 512
    &&& pf.len() == t.len() / 512
    &&& lv[0] == 3
    &&& pf[0] == 0
    &&& forall|k: int, i: int| 0 <= k < lv.len() && 0 <= i < 512 && (#[trigger] slot(t, k, i)) is Next ==> {
        let c = slot(t, k, i)->Next_0 as int;
        &&& 0 < c < lv.len()
        &&& lv[k] >= 1
        &&& lv[c] == lv[k] - 1
        &&& pf[c] == pf[k] * 512 + i
    }
    &&& forall|k: int, i: int| 0 <= k < lv.len() && 0 <= i < 512 && (#[trigger] slot(t, k, i)) is Leaf
        ==> lv[k] == 0
}

/// The tables that a walk for page `p` passes have the levels 3 to 0 and
/// serve the prefixes of `p`.
proof fn lemma_walk_path(t: Seq<Slot>, lv: Seq<int>, pf: Seq<int>, p: int)
    requires
        tree_ok(t, lv, pf),
        0 <= p < PAGE_LIMIT,
    ensures
        slot(t, 0, index3(p)) is Next ==> {
            let a = slot(t, 0, index3(p))->Next_0 as int;
            &&& lv[a] == 2 && pf[a] == p / 0x800_0000
            &&& slot(t, a, index2(p)) is Next ==> {
                let b = slot(t, a, index2(p))->Next_0 as int;
                &&& lv[b] == 1 && pf[b] == p / 0x4_0000
                &&& slot(t, b, index1(p)) is Next ==> {
                    let c = slot(t, b, index1(p))->Next_0 as int;
                    lv[c] == 0 && pf[c] == p / 512
                }
            }
        },
{
    assert(p / 0x800_0000 * 512 + (p / 0x4_0000) % 512 == p / 0x4_0000);
    assert(p / 0x4_0000 * 512 + (p / 512) % 512 == p / 512);
    assert(0 <= index3(p) < 512);
    if slot(t, 0, index3(p)) is Next {
        let a = slot(t, 0, index3(p))->Next_0 as int;
        if slot(t, a, index2(p)) is Next {
            let b = slot(t, a, index2(p))->Next_0 as int;
            assert(0 <= index2(p) < 512);
            if slot(t, b, index1(p)) is Next {
                assert(0 <= index1(p) < 512);
            }
        }
    }
}

/// The slots of a table that exists lie inside the slot vector.
proof fn lemma_row_in_bounds(len: int, a: int)
    requires
        0 <= a < len / 512,
    ensures
        a * 512 + 512 <= len,
{
    assert(a * 512 + 512 <= len) by (nonlinear_arith)
        requires 0 <= a < len / 512;
}

/// Makes sure that slot `i` of table `k` links to a table one level down,
/// linking a new empty table where the slot is empty; returns that table and
/// the levels and prefixes of all tables. No walk finds anything new.
fn ensure_child(slots: &mut Vec<Slot>, lv: Ghost<Seq<int>>, pf: Ghost<Seq<int>>, k: usize, i: usize)
    -> (r: (usize, Ghost<Seq<int>>, Ghost<Seq<int>>))
    requires
        tree_ok(old(slots)@, lv@, pf@),
        k < lv@.len(),
        i < 512,
        lv@[k as int] >= 1,
    ensures
        tree_ok(final(slots)@, r.1@, r.2@),
        r.1@.len() >= lv@.len(),
        forall|x: int| 0 <= x < lv@.len() ==> r.1@[x] == lv@[x] && r.2@[x] == pf@[x],
        slot(final(slots)@, k as int, i as int) == Slot::Next(r.0),
        forall|x: int, j: int| 0 <= x < lv@.len() && !(x == k && j == i) ==> #[trigger] slot(final(slots)@, x, j)
            == slot(old(slots)@, x, j),
        forall|q: int| #[trigger] walk(final(slots)@, q) == walk(old(slots)@, q),
{
    let len = slots.len();
    proof { lemma_row_in_bounds(len as int, k as int); }
    assert(slot(slots@, k as int, i as int) == slots@[k * 512 + i]);
    match slots[k * 512 + i] {
        Slot::Next(c) => (c, lv, pf),
        Slot::Leaf(_) => {
            assert(false);
            (0, lv, pf)
        },
        Slot::Empty => {
            let ghost t0 = slots@;
            let n = len / 512;
            assert(n as int == lv@.len());
            let mut j: usize = 0;
            while j < 512
                invariant
                    j <= 512,
                    slots@.len() == t0.len() + j,
                    forall|x: int| 0 <= x < t0.len() ==> #[trigger] slots@[x] == t0[x],
                    forall|x: int| t0.len() <= x < slots@.len() ==> #[trigger] slots@[x] == Slot::Empty,
                decreases 512 - j,
            {
                slots.push(Slot::Empty);
                j = j + 1;
            }
            slots.set(k * 512 + i, Slot::Next(n));
            let ghost lv2 = lv@.push(lv@[k as int] - 1);
            let ghost pf2 = pf@.push(pf@[k as int] * 512 + i);
            proof {
                assert(t0.len() == n * 512);
                assert forall|x: int, y: int| #[trigger] slot(slots@, x, y) == if x == k && y == i {
                    Slot::Next(n)
                } else if x == n && 0 <= y < 512 {
                    Slot::Empty
                } else {
                    slot(t0, x, y)
                } by {
                    if 0 <= x && 0 <= y < 512 && x * 512 + y < slots@.len() {
                        if x < n {
                            assert(x * 512 + y < t0.len()) by (nonlinear_arith)
                                requires x < n, 0 <= y < 512, t0.len() == n * 512;
                        } else {
                            assert(x == n) by (nonlinear_arith)
                                requires x >= n, 0 <= y < 512, x * 512 + y < n * 512 + 512;
                        }
                    } else if 0 <= x && 0 <= y < 512 && x < n {
                        assert(x * 512 + y < t0.len()) by (nonlinear_arith)
                            requires x < n, 0 <= y < 512, t0.len() == n * 512;
                    }
                }
                assert forall|q: int| #[trigger] walk(slots@, q) == walk(t0, q) by {}
            }
            (n, Ghost(lv2), Ghost(pf2))
        },
    }
}

/// The four-level page table.
pub struct PageTable {
    slots: Vec<Slot>,
    levels: Ghost<Seq<int>>,
    prefixes: Ghost<Seq<int>>,
}

impl PageTable {
    #[verifier::type_invariant]
    spec fn inv(self) -> bool {
        tree_ok(self.slots@, self.levels@, self.prefixes@)
    }

    /// The mapping of page `p`, if any.
    pub closed spec fn lookup(&self, p: int) -> Option<PageEntry> {
        if 0 <= p < PAGE_LIMIT { walk(self.slots@, p) } else { None }
    }

    /// A table with only an empty root.
    pub fn new() -> (r: PageTable)
        ensures
            forall|p: int| #[trigger] r.lookup(p) is None,
    {
        let mut slots: Vec<Slot> = Vec::new();
        let mut i: usize = 0;
        while i < 512
            invariant
                i <= 512,
                slots@.len() == i,
                forall|j: int| 0 <= j < i ==> #[trigger] slots@[j] == Slot::Empty,
            decreases 512 - i,
        {
            slots.push(Slot::Empty);
            i = i + 1;
        }
        assert forall|k: int, j: int| #[trigger] slot(slots@, k, j) == Slot::Empty by {}
        let ghost lv: Seq<int> = seq![3int];
        let ghost pf: Seq<int> = seq![0int];
        PageTable { slots, levels: Ghost(lv), prefixes: Ghost(pf) }
    }

    /// The mapping of `page`, if any.
    pub fn get(&self, page: usize) -> (r: Option<PageEntry>)
        ensures
            r == self.lookup(page as int),
    {
        proof { use_type_invariant(&*self); }
        if page as u64 >= PAGE_LIMIT {
            return None;
        }
        let a = match self.slots[page / 0x800_0000] {
            Slot::Next(a) => a,
            _ => return None,
        };
        proof { lemma_walk_path(self.slots@, self.levels@, self.prefixes@, page as int); }
        assert(slot(self.slots@, 0, index3(page as int)) == Slot::Next(a));
        let _len = self.slots.len();
        proof { lemma_row_in_bounds(self.slots@.len() as int, a as int); }
        let b = match self.slots[a * 512 + (page / 0x4_0000) % 512] {
            Slot::Next(b) => b,
            _ => return None,
        };
        assert(slot(self.slots@, a as int, index2(page as int)) == Slot::Next(b));
        proof { lemma_row_in_bounds(self.slots@.len() as int, b as int); }
        let c = match self.slots[b * 512 + (page / 512) % 512] {
            Slot::Next(c) => c,
            _ => return None,
        };
        assert(slot(self.slots@, b as int, index1(page as int)) == Slot::Next(c));
        proof { lemma_row_in_bounds(self.slots@.len() as int, c as int); }
        match self.slots[c * 512 + page % 512] {
            Slot::Leaf(e) => Some(e),
            _ => None,
        }
    }

    /// Writes `entry` as the mapping of `page`, making the tables on its
    /// path where they are missing. No other page's mapping changes.
    pub fn set(&mut self, page: usize, entry: Option<PageEntry>)
        requires
            page < PAGE_LIMIT,
        ensures
            forall|p: int| #[trigger] final(self).lookup(p) == if p == page { entry } else { old(self).lookup(p) },
    {
        proof { use_type_invariant(&*self); }
        let ghost t0 = self.slots@;
        let mut tmp = PageTable::new();
        std::mem::swap(self, &mut tmp);
        let PageTable { slots, levels, prefixes } = tmp;
        let mut slots = slots;
        assert(slots@ == t0);
        let i3 = page / 0x800_0000;
        let i2 = (page / 0x4_0000) % 512;
        let i1 = (page / 512) % 512;
        let i0 = page % 512;
        let (a, lv, pf) = ensure_child(&mut slots, levels, prefixes, 0, i3);
        let ghost t1 = slots@;
        assert(slot(t1, 0, i3 as int) == Slot::Next(a));
        let (b, lv, pf) = ensure_child(&mut slots, lv, pf, a, i2);
        let ghost t2 = slots@;
        assert(slot(t2, a as int, i2 as int) == Slot::Next(b));
        let (c, lv, pf) = ensure_child(&mut slots, lv, pf, b, i1);
        let ghost t3 = slots@;
        assert(slot(t3, b as int, i1 as int) == Slot::Next(c));
        proof {
            lemma_walk_path(t3, lv@, pf@, page as int);
            assert(slot(t3, 0, i3 as int) == Slot::Next(a));
            assert(slot(t3, a as int, i2 as int) == Slot::Next(b));
        }
        let len = slots.len();
        proof { lemma_row_in_bounds(len as int, c as int); }
        let value = match entry {
            Some(e) => Slot::Leaf(e),
            None => Slot::Empty,
        };
        slots.set(c * 512 + i0, value);
        proof {
            assert forall|x: int, y: int| #[trigger] slot(slots@, x, y) == if x == c && y == i0 { value }
                else { slot(t3, x, y) } by {
                if 0 <= x && 0 <= y < 512 && x * 512 + y < slots@.len() && (x != c || y != i0) {
                    if x == c {
                    } else {
                        assert(x * 512 + y != c * 512 + i0) by (nonlinear_arith)
                            requires x != c, 0 <= y < 512, 0 <= i0 < 512;
                    }
                }
            }
        }
        let ghost t4 = slots@;
        *self = PageTable { slots, levels: lv, prefixes: pf };
        proof {
            assert forall|q: int| #[trigger] self.lookup(q) == if q == page { entry } else { old(self).lookup(q) } by {
                assert(self.slots@ == t4);
                assert(old(self).slots@ == t0);
                if 0 <= q < PAGE_LIMIT && q != page {
                    lemma_walk_path(t3, lv@, pf@, q);
                    assert(q / 512 != page / 512 || q % 512 != page % 512);
                    assert(walk(t3, q) == walk(t0, q));
                }
            }
        }
    }
}

} // verus!
