//! UAT page tables.
//!
//! AGX GPUs use an MMU called the UAT, which is largely compatible with the ARM64 page table format.
//! A [`UatPageTable`] edits the tables below one root, inside a [`TableMemory`] that several roots
//! may share.
use crate::error::Error;
use crate::prot;
use crate::prot::Prot;
use crate::tables;
use crate::tables::{TableMemory, Tree, ENTRIES, PAGES};
use crate::walk;
use crate::walk::Edit;
use core::ops::Range;
use vstd::arithmetic::power2::pow2;
use vstd::prelude::*;

verus! {

/// A table that an owner added, and the slot that links to it.
#[derive(Clone, Copy, Debug, PartialEq, Eq, Structural)]
pub struct OwnedTable {
    pub phys: u64,
    pub parent: u64,
    pub index: usize,
}

/// The translation tables below one root.
pub struct UatPageTable {
    pub ttb: u64,
    pub ttb_owned: bool,
    pub va_range: Range<u64>,
    pub oas_mask: u64,
    pub ias_mask: u64,
    pub owned_tables: Vec<OwnedTable>,
    pub walked_tables: Vec<u64>,
}

/// A mapped page of a core dump. Its contents are copied where a frame is given.
#[derive(Clone, Copy, Debug, PartialEq, Eq, Structural)]
pub struct DumpedPage {
    pub iova: u64,
    pub pte: u64,
    pub frame: Option<u64>,
}

/// UAT page size.
pub const UAT_PGSZ: u64 = 0x4000;

/// Input address bits of a root with eight top-level entries.
pub const UAT_IAS: usize = 39;

/// Whether a mask takes the remainder by a power of two.
pub open spec fn is_low_mask(mask: u64) -> bool {
    forall|x: u64| #[trigger] (x & mask) == x as int % (mask + 1)
}

/// Whether a table is one of those listed.
pub open spec fn listed(owned: Seq<OwnedTable>, table: u64) -> bool {
    exists|k: int| 0 <= k < owned.len() && (#[trigger] owned[k]).phys == table
}

/// Whether every table that was added is listed.
pub open spec fn added_listed(m0: TableMemory, m: TableMemory, owned: Seq<OwnedTable>) -> bool {
    forall|x: u64| #[trigger]
        m.map().contains_key(x) ==> m0.map().contains_key(x) || listed(owned, x)
}

/// Whether a table is a level-one table of a tree.
pub open spec fn is_level_one(t: Tree, table: u64) -> bool {
    exists|k: int| 0 <= k < ENTRIES && #[trigger] t.l1(k) == Some(table)
}

/// Whether a list of added tables agrees with the tree: each is linked from its slot, no table is
/// listed twice, and parents come before their children.
pub open spec fn owned_ok(t: Tree, owned: Seq<OwnedTable>) -> bool {
    &&& forall|i: int|
        0 <= i < owned.len() ==> {
            let o = #[trigger] owned[i];
            &&& t.tables.contains_key(o.phys)
            &&& t.tables.contains_key(o.parent)
            &&& o.index < ENTRIES
            &&& o.phys != t.root
            &&& tables::frame_of(o.phys, t.oas_mask) == o.phys
            &&& t.link(o.parent, o.index as int) == Some(o.phys)
            &&& o.parent == t.root || is_level_one(t, o.parent)
        }
    &&& forall|i: int, j: int|
        0 <= i <= j < owned.len() ==> (#[trigger] owned[i]).parent != (#[trigger] owned[j]).phys
    &&& forall|i: int, j: int|
        0 <= i < j < owned.len() ==> (#[trigger] owned[i]).phys != (#[trigger] owned[j]).phys
}

impl UatPageTable {
    /// The tree that the root spans.
    pub open spec fn tree(self, mem: TableMemory) -> Tree {
        Tree { tables: mem.map(), root: self.ttb, oas_mask: self.oas_mask }
    }

    /// The address masks fit the three levels.
    pub open spec fn geometry_ok(self) -> bool {
        &&& is_low_mask(self.ias_mask)
        &&& is_low_mask(self.oas_mask)
        &&& 0x3fff <= self.ias_mask < 0x8000_0000_0000
        &&& 0x3fff <= self.oas_mask < 0x10_0000_0000_0000
        &&& (self.ias_mask + 1) % 0x4000 == 0
    }

    /// The root, the memory below it and the list of added tables agree.
    pub open spec fn wf(self, mem: TableMemory) -> bool {
        &&& self.geometry_ok()
        &&& mem.wf()
        &&& mem.free_ok(self.oas_mask)
        &&& self.tree(mem).wf()
        &&& owned_ok(self.tree(mem), self.owned_tables@)
    }

    /// Same root, range and masks.
    pub open spec fn same_root(self, other: UatPageTable) -> bool {
        &&& self.ttb == other.ttb
        &&& self.ttb_owned == other.ttb_owned
        &&& self.va_range == other.va_range
        &&& self.oas_mask == other.oas_mask
        &&& self.ias_mask == other.ias_mask
    }

    /// Number of the page that an address lies in, below the root.
    pub open spec fn first_page(self, start: u64) -> int {
        (start as int % (self.ias_mask + 1)) / 0x4000
    }

    /// Number of the page that an end address closes, below the root.
    pub open spec fn end_page(self, end: u64) -> int {
        ((end - 1) % (self.ias_mask + 1) + 1) / 0x4000
    }

    /// The pages that were turned into tables are the last ones of the pool, listed in order.
    pub open spec fn grown(self, m0: TableMemory, after: UatPageTable, m: TableMemory) -> bool {
        let taken = m0.free@.len() - m.free@.len();
        &&& taken >= 0
        &&& m.free@ == m0.free@.take(m.free@.len() as int)
        &&& after.owned_tables@.len() == self.owned_tables@.len() + taken
        &&& after.owned_tables@.take(self.owned_tables@.len() as int) == self.owned_tables@
        &&& forall|k: int|
            0 <= k < taken ==> (#[trigger] after.owned_tables@[self.owned_tables@.len() + k]).phys
                == m0.free@[m0.free@.len() - 1 - k]
    }

    /// What holds after every walk: the trees agree outside the walk, and all that changed is
    /// recorded.
    pub open spec fn walk_kept(self, m0: TableMemory, after: UatPageTable, m: TableMemory) -> bool {
        &&& after.wf(m)
        &&& after.same_root(self)
        &&& self.grown(m0, after, m)
        &&& added_listed(m0, m, after.owned_tables@)
        &&& walk::framed(self.tree(m0), after.tree(m))
        &&& walk::extends(self.tree(m0), after.tree(m))
        &&& walk::recorded(self.tree(m0), after.tree(m), after.walked_tables@)
        &&& forall|x: u64| #[trigger]
            self.walked_tables@.contains(x) ==> after.walked_tables@.contains(x)
    }

    /// What a walk over `range` answers and leaves behind.
    pub open spec fn walk_done(
        self,
        m0: TableMemory,
        after: UatPageTable,
        m: TableMemory,
        range: Range<u64>,
        alloc: bool,
        edit: Edit,
        out: Result<(), Error>,
    ) -> bool {
        let t0 = self.tree(m0);
        let t = after.tree(m);
        let lo = self.first_page(range.start);
        let hi = self.end_page(range.end);
        if range.start % 0x4000 != 0 || range.end % 0x4000 != 0 {
            out == Err::<(), Error>(Error::EINVAL) && after == self && m == m0
        } else if range.start >= range.end {
            out == Ok::<(), Error>(()) && after == self && m == m0
        } else {
            &&& self.walk_kept(m0, after, m)
            &&& !alloc ==> out is Ok && t.same_links(t0) && m.free@ == m0.free@
            &&& !alloc && edit == Edit::Keep ==> m.map() == m0.map()
            &&& match out {
                Ok(_) => {
                    &&& walk::outcome(t0, t, alloc, edit, lo, hi)
                    &&& alloc ==> m0.free@.len() - m.free@.len() == walk::needed(t0, lo, hi)
                },
                Err(e) => {
                    &&& e == Error::ENOMEM
                    &&& walk::needed(t0, lo, hi) > m0.free@.len()
                    &&& m.free@.len() == 0
                    &&& exists|stop: int|
                        {
                            &&& lo <= stop < hi
                            &&& walk::needed(t0, lo, stop) <= m0.free@.len() < walk::needed(
                                t0,
                                lo,
                                stop + 1,
                            )
                            &&& #[trigger] walk::outcome(t0, t, alloc, edit, lo, stop)
                        }
                },
            }
        }
    }

    /// Records a table that a walk reads or writes.
    fn remember(&mut self, phys: u64)
        ensures
            final(self).same_root(*old(self)),
            final(self).owned_tables@ == old(self).owned_tables@,
            final(self).walked_tables@.contains(phys),
            final(self).walked_tables@ == if old(self).walked_tables@.contains(phys) {
                old(self).walked_tables@
            } else {
                old(self).walked_tables@.push(phys)
            },
            forall|x: u64| #[trigger]
                old(self).walked_tables@.contains(x) ==> final(self).walked_tables@.contains(x),
    {
        let mut i: usize = 0;
        while i < self.walked_tables.len()
            invariant
                i <= self.walked_tables@.len(),
                *self == *old(self),
                forall|k: int| 0 <= k < i ==> self.walked_tables@[k] != phys,
            decreases self.walked_tables@.len() - i,
        {
            if self.walked_tables[i] == phys {
                assert(self.walked_tables@[i as int] == phys);
                return;
            }
            i += 1;
        }
        let ghost before = self.walked_tables@;
        assert(!before.contains(phys));
        self.walked_tables.push(phys);
        assert(self.walked_tables@[before.len() as int] == phys);
        assert forall|x: u64| before.contains(x) implies self.walked_tables@.contains(x) by {
            let k = choose|k: int| 0 <= k < before.len() && before[k] == x;
            assert(self.walked_tables@[k] == x);
        }
    }

    /// Follows one upper-level entry, adding an empty table behind an empty entry where asked to.
    fn descend(&mut self, mem: &mut TableMemory, parent: u64, index: usize, alloc: bool) -> (out:
        Result<Option<u64>, Error>)
        requires
            old(mem).wf(),
            old(mem).map().contains_key(parent),
            index < ENTRIES,
            old(mem).free_ok(old(self).oas_mask),
            3 & old(self).oas_mask == 3,
        ensures
            final(mem).wf(),
            final(self).same_root(*old(self)),
            final(self).walked_tables@.contains(parent),
            forall|x: u64| #[trigger]
                old(self).walked_tables@.contains(x) ==> final(self).walked_tables@.contains(x),
            ({
                let entry = old(mem).map()[parent][index as int];
                let page = old(mem).free@.last();
                if entry == 0 && alloc && old(mem).free@.len() > 0 {
                    &&& out == Ok::<Option<u64>, Error>(Some(page))
                    &&& final(mem).map() == old(mem).map().insert(
                        page,
                        tables::empty_table(),
                    ).insert(parent, old(mem).map()[parent].update(index as int, page | 3))
                    &&& final(mem).free@ == old(mem).free@.drop_last()
                    &&& final(self).owned_tables@ == old(self).owned_tables@.push(
                        OwnedTable { phys: page, parent, index },
                    )
                } else {
                    &&& final(mem).map() == old(mem).map()
                    &&& final(mem).free@ == old(mem).free@
                    &&& final(self).owned_tables@ == old(self).owned_tables@
                    &&& out == if entry == 0 && alloc {
                        Err::<Option<u64>, Error>(Error::ENOMEM)
                    } else if tables::is_valid(entry) {
                        Ok(Some(tables::frame_of(entry, old(self).oas_mask)))
                    } else {
                        Ok(None)
                    }
                }
            }),
    {
        self.remember(parent);
        let mut entry: u64 = mem.read(parent, index);
        proof {
            tables::lemma_zero_bits();
        }
        if entry == 0 && alloc {
            let ghost before = mem.map();
            match mem.take_table() {
                None => {
                    return Err(Error::ENOMEM);
                },
                Some(page) => {
                    assert(old(mem).free@[old(mem).free@.len() - 1] == page);
                    self.owned_tables.push(OwnedTable { phys: page, parent, index });
                    entry = page | 3;
                    mem.write(parent, index, entry);
                    proof {
                        tables::lemma_link_bits(page, self.oas_mask);
                    }
                },
            }
        }
        if entry & 3 == 3 {
            Ok(Some(entry & self.oas_mask & !0x3fffu64))
        } else {
            Ok(None)
        }
    }

    /// Finds the level-one table of a page.
    fn upper_table(
        &mut self,
        mem: &mut TableMemory,
        page: u64,
        alloc: bool,
        Ghost(t0): Ghost<Tree>,
    ) -> (out: Result<Option<u64>, Error>)
        requires
            old(self).wf(*old(mem)),
            page < PAGES,
            walk::framed(t0, old(self).tree(*old(mem))),
            walk::recorded(t0, old(self).tree(*old(mem)), old(self).walked_tables@),
        ensures
            final(self).wf(*final(mem)),
            final(self).same_root(*old(self)),
            forall|x: u64| #[trigger]
                old(self).walked_tables@.contains(x) ==> final(self).walked_tables@.contains(x),
            walk::framed(t0, final(self).tree(*final(mem))),
            added_listed(*old(mem), *final(mem), final(self).owned_tables@),
            ({
                let t = old(self).tree(*old(mem));
                let n = final(self).tree(*final(mem));
                let i = tables::upper(page as int);
                let kept = n == t && final(mem).free@ == old(mem).free@
                    && final(self).owned_tables@ == old(self).owned_tables@ && walk::recorded(
                    t0,
                    n,
                    final(self).walked_tables@,
                );
                match out {
                    Ok(Some(x)) => {
                        &&& n.l1(i) == Some(x)
                        &&& n.same_values(t)
                        &&& n.same_blocked(t)
                        &&& forall|k: int|
                            0 <= k < ENTRIES && k != i ==> #[trigger] n.l1(k) == t.l1(k)
                        &&& forall|k: int, l: int|
                            0 <= k < ENTRIES && 0 <= l < ENTRIES ==> #[trigger] n.leaf(k, l)
                                == t.leaf(k, l)
                        &&& if t.l1(i) is Some {
                            kept
                        } else {
                            &&& alloc
                            &&& t.tables[t.root][i] == 0
                            &&& old(mem).free@.len() > 0
                            &&& x == old(mem).free@.last()
                            &&& final(mem).free@ == old(mem).free@.drop_last()
                            &&& final(self).owned_tables@ == old(self).owned_tables@.push(
                                OwnedTable { phys: x, parent: old(self).ttb, index: i as usize },
                            )
                            &&& walk::recorded_except(
                                t0,
                                n,
                                final(self).walked_tables@,
                                Some(x),
                            )
                        }
                    },
                    Ok(None) => kept && t.l1(i) is None && (alloc ==> t.tables[t.root][i] != 0),
                    Err(e) => kept && e == Error::ENOMEM && alloc && t.tables[t.root][i] == 0
                        && old(mem).free@.len() == 0,
                }
            }),
    {
        let ghost t = self.tree(*mem);
        let ghost i = tables::upper(page as int);
        let ghost free0 = mem.free@;
        let ghost owned0 = self.owned_tables@;
        let ghost walked0 = self.walked_tables@;
        proof {
            tables::lemma_positions(page as int);
            tables::lemma_zero_bits();
            lemma_low_three(self.oas_mask);
        }
        let root: u64 = self.ttb;
        let index: usize = (page / 0x400000) as usize;
        let out = self.descend(mem, root, index, alloc);
        proof {
            let n = self.tree(*mem);
            let walked1 = self.walked_tables@;
            if t.tables[t.root][i] == 0 && alloc && free0.len() > 0 {
                let x = free0.last();
                assert(free0[free0.len() - 1] == x);
                tables::lemma_grow_upper(t, i, x);
                assert(n == t.grow(t.root, i, x));
                assert(n.l1(i) == Some(x));
                assert(n.holds(x));
                assert(walk::recorded(t0, t, walked1)) by {
                    walk::lemma_recorded_more(t0, t, walked0, walked1, None);
                }
                assert(t.l1(i) is None);
                walk::lemma_framed_grow(t0, t, n, t.root, i, x, walked1);
                lemma_owned_grow(t, n, owned0, t.root, index, x);
                lemma_last_listed(owned0, self.owned_tables@);
                lemma_free_taken(*old(mem), *mem, self.oas_mask);
            } else {
                assert(n == t);
                walk::lemma_recorded_more(t0, t, walked0, walked1, None);
            }
        }
        out
    }

    /// Finds the leaf table of a page whose level-one table is known.
    fn leaf_table(
        &mut self,
        mem: &mut TableMemory,
        table: u64,
        page: u64,
        alloc: bool,
        Ghost(t0): Ghost<Tree>,
    ) -> (out: Result<Option<u64>, Error>)
        requires
            old(self).wf(*old(mem)),
            page < PAGES,
            old(self).tree(*old(mem)).l1(tables::upper(page as int)) == Some(table),
            walk::framed(t0, old(self).tree(*old(mem))),
            walk::recorded_except(
                t0,
                old(self).tree(*old(mem)),
                old(self).walked_tables@,
                Some(table),
            ),
        ensures
            final(self).wf(*final(mem)),
            final(self).same_root(*old(self)),
            forall|x: u64| #[trigger]
                old(self).walked_tables@.contains(x) ==> final(self).walked_tables@.contains(x),
            walk::framed(t0, final(self).tree(*final(mem))),
            added_listed(*old(mem), *final(mem), final(self).owned_tables@),
            ({
                let t = old(self).tree(*old(mem));
                let n = final(self).tree(*final(mem));
                let i = tables::upper(page as int);
                let j = tables::middle(page as int);
                let kept = n == t && final(mem).free@ == old(mem).free@
                    && final(self).owned_tables@ == old(self).owned_tables@ && walk::recorded(
                    t0,
                    n,
                    final(self).walked_tables@,
                );
                match out {
                    Ok(Some(x)) => {
                        &&& n.leaf(i, j) == Some(x)
                        &&& n.same_values(t)
                        &&& n.same_blocked(t)
                        &&& forall|k: int| 0 <= k < ENTRIES ==> #[trigger] n.l1(k) == t.l1(k)
                        &&& forall|k: int, l: int|
                            0 <= k < ENTRIES && 0 <= l < ENTRIES && (k != i || l != j)
                                ==> #[trigger] n.leaf(k, l) == t.leaf(k, l)
                        &&& if t.leaf(i, j) is Some {
                            kept
                        } else {
                            &&& alloc
                            &&& t.tables[table][j] == 0
                            &&& old(mem).free@.len() > 0
                            &&& x == old(mem).free@.last()
                            &&& final(mem).free@ == old(mem).free@.drop_last()
                            &&& final(self).owned_tables@ == old(self).owned_tables@.push(
                                OwnedTable { phys: x, parent: table, index: j as usize },
                            )
                            &&& walk::recorded_except(
                                t0,
                                n,
                                final(self).walked_tables@,
                                Some(x),
                            )
                        }
                    },
                    Ok(None) => kept && t.leaf(i, j) is None && (alloc ==> t.tables[table][j] != 0),
                    Err(e) => kept && e == Error::ENOMEM && alloc && t.tables[table][j] == 0
                        && old(mem).free@.len() == 0,
                }
            }),
    {
        let ghost t = self.tree(*mem);
        let ghost i = tables::upper(page as int);
        let ghost j = tables::middle(page as int);
        let ghost free0 = mem.free@;
        let ghost owned0 = self.owned_tables@;
        let ghost walked0 = self.walked_tables@;
        proof {
            tables::lemma_positions(page as int);
            tables::lemma_zero_bits();
            lemma_low_three(self.oas_mask);
            assert(t.l1(i) == Some(table));
        }
        let index: usize = ((page / 0x800) % 0x800) as usize;
        let out = self.descend(mem, table, index, alloc);
        proof {
            let n = self.tree(*mem);
            let walked1 = self.walked_tables@;
            walk::lemma_recorded_more(t0, t, walked0, walked1, Some(table));
            if t.tables[table][j] == 0 && alloc && free0.len() > 0 {
                let x = free0.last();
                assert(free0[free0.len() - 1] == x);
                tables::lemma_grow_leaf(t, i, j, x);
                assert(n == t.grow(table, j, x));
                assert(n.leaf(i, j) == Some(x));
                assert(n.holds(x));
                assert(t.holds(table));
                assert(t.leaf(i, j) is None);
                walk::lemma_framed_grow(t0, t, n, table, j, x, walked1);
                lemma_owned_grow(t, n, owned0, table, index, x);
                lemma_last_listed(owned0, self.owned_tables@);
                lemma_free_taken(*old(mem), *mem, self.oas_mask);
            } else {
                assert(n == t);
            }
        }
        out
    }

    /// Edits the leaf entries of the pages `page..stop`, which share one leaf table.
    fn edit_leaf(
        &self,
        mem: &mut TableMemory,
        table: u64,
        page: u64,
        stop: u64,
        edit: &Edit,
        done: u64,
        Ghost(t0): Ghost<Tree>,
        Ghost(alloc): Ghost<bool>,
        Ghost(lo): Ghost<int>,
    ) -> (out: u64)
        requires
            self.wf(*old(mem)),
            page <= stop <= PAGES,
            stop <= (page / 0x800 + 1) * 0x800,
            lo <= page,
            done <= page,
            self.tree(*old(mem)).leaf_of(page as int) == Some(table),
            done == walk::visits(t0, alloc, lo, page as int),
            forall|q: int| page <= q < stop ==> #[trigger] walk::visited(t0, alloc, q),
            walk::representable(*edit, walk::visits(t0, alloc, lo, stop as int)),
            walk::outcome(t0, self.tree(*old(mem)), alloc, *edit, lo, page as int),
            walk::framed(t0, self.tree(*old(mem))),
            walk::recorded(t0, self.tree(*old(mem)), self.walked_tables@),
            self.walked_tables@.contains(table),
        ensures
            self.wf(*final(mem)),
            final(mem).free@ == old(mem).free@,
            self.tree(*final(mem)).same_links(self.tree(*old(mem))),
            forall|x: u64| #[trigger]
                final(mem).map().contains_key(x) == old(mem).map().contains_key(x),
            *edit == Edit::Keep ==> final(mem).map() == old(mem).map(),
            walk::outcome(t0, self.tree(*final(mem)), alloc, *edit, lo, stop as int),
            walk::framed(t0, self.tree(*final(mem))),
            walk::recorded(t0, self.tree(*final(mem)), self.walked_tables@),
            out == walk::visits(t0, alloc, lo, stop as int),
            out <= stop,
    {
        let ghost first = self.tree(*mem);
        let mut at: u64 = page;
        let mut k: u64 = done;
        while at < stop
            invariant
                page <= at <= stop <= PAGES,
                stop <= (page / 0x800 + 1) * 0x800,
                lo <= page,
                k <= at,
                self.wf(*mem),
                mem.free@ == old(mem).free@,
                self.tree(*mem).same_links(first),
                forall|x: u64| #[trigger]
                    mem.map().contains_key(x) == old(mem).map().contains_key(x),
                *edit == Edit::Keep ==> mem.map() == old(mem).map(),
                first.leaf_of(page as int) == Some(table),
                k == walk::visits(t0, alloc, lo, at as int),
                forall|q: int| page <= q < stop ==> #[trigger] walk::visited(t0, alloc, q),
                walk::representable(*edit, walk::visits(t0, alloc, lo, stop as int)),
                walk::outcome(t0, self.tree(*mem), alloc, *edit, lo, at as int),
                walk::framed(t0, self.tree(*mem)),
                walk::recorded(t0, self.tree(*mem), self.walked_tables@),
                self.walked_tables@.contains(table),
            decreases stop - at,
        {
            let ghost t = self.tree(*mem);
            proof {
                tables::lemma_positions(at as int);
                tables::lemma_positions(page as int);
                assert(at as int / 0x800 == page as int / 0x800);
                assert(tables::upper(at as int) == tables::upper(page as int)) by {
                    assert(at as int / 0x400000 == (at as int / 0x800) / 0x800);
                    assert(page as int / 0x400000 == (page as int / 0x800) / 0x800);
                }
                assert(t.leaf(tables::upper(at as int), tables::middle(at as int)) == first.leaf(
                    tables::upper(at as int),
                    tables::middle(at as int),
                ));
                assert(t.leaf_of(at as int) == Some(table));
                walk::lemma_visits_monotone(t0, alloc, lo, at as int, stop as int);
                assert(walk::visited(t0, alloc, at as int));
                assert(t.value(at as int) == t0.value(at as int));
            }
            let index: usize = (at % 0x800) as usize;
            let entry: u64 = mem.read(table, index);
            let value: u64 = walk::apply(edit, k, entry);
            mem.write(table, index, value);
            proof {
                let n = self.tree(*mem);
                assert(n == t.write(table, tables::lower(at as int), value));
                if *edit == Edit::Keep {
                    assert(t.tables[table].update(index as int, entry) == t.tables[table]);
                    assert(n.tables == t.tables);
                }
                tables::lemma_write_leaf(t, at as int, value);
                walk::lemma_framed_write(t0, t, at as int, value, self.walked_tables@);
                lemma_owned_write(t, n, self.owned_tables@, at as int, value);
                assert forall|q: int| tables::in_tree(q) implies #[trigger] n.value(q) == if lo <= q
                    < at + 1 && walk::visited(t0, alloc, q) {
                    walk::edited(*edit, walk::visits(t0, alloc, lo, q), t0.value(q))
                } else {
                    t0.value(q)
                } by {
                    assert(t.value(q) == if lo <= q < at && walk::visited(t0, alloc, q) {
                        walk::edited(*edit, walk::visits(t0, alloc, lo, q), t0.value(q))
                    } else {
                        t0.value(q)
                    });
                }
                assert(n.same_blocked(t0)) by {
                    assert forall|q: int| tables::in_tree(q) implies #[trigger] n.blocked(q)
                        == t0.blocked(q) by {
                        assert(t.blocked(q) == t0.blocked(q));
                    }
                }
                lemma_same_links_trans(n, t, first);
                assert(mem.free_ok(self.oas_mask)) by {
                    assert(forall|x: u64| mem.map().contains_key(x) == t.tables.contains_key(x));
                }
            }
            at += 1;
            k += 1;
        }
        k
    }

    /// Allocates a root for 39 address bits.
    pub fn new(mem: &mut TableMemory, oas: u32) -> (out: Result<Self, Error>)
        requires
            old(mem).wf(),
        ensures
            Self::created(*old(mem), *final(mem), oas, UAT_IAS, out),
    {
        Self::new_with_ias(mem, oas, UAT_IAS)
    }

    /// Whether address widths fit the three levels and the entries.
    pub open spec fn widths_ok(oas: u32, ias: usize) -> bool {
        14 <= ias <= 47 && 14 <= oas <= 52
    }

    /// What allocating a root answers and leaves behind.
    pub open spec fn created(
        m0: TableMemory,
        m: TableMemory,
        oas: u32,
        ias: usize,
        out: Result<Self, Error>,
    ) -> bool {
        if !Self::widths_ok(oas, ias) {
            out == Err::<Self, Error>(Error::EINVAL) && m == m0
        } else if m0.free@.len() == 0 {
            out == Err::<Self, Error>(Error::ENOMEM) && m.map() == m0.map() && m.free@ == m0.free@
        } else {
            &&& out is Ok
            &&& m.map() == m0.map().insert(m0.free@.last(), tables::empty_table())
            &&& m.free@ == m0.free@.drop_last()
            &&& m.wf()
            &&& ({
                let table = out->Ok_0;
                &&& table.ttb == m0.free@.last()
                &&& table.ttb_owned
                &&& table.va_range.start == 0
                &&& table.va_range.end == pow2(ias as nat)
                &&& table.oas_mask == pow2(oas as nat) - 1
                &&& table.ias_mask == pow2(ias as nat) - 1
                &&& table.owned_tables@.len() == 0
                &&& table.walked_tables@.len() == 0
                &&& m0.free_ok(table.oas_mask) ==> table.wf(m)
                &&& forall|q: int|
                    tables::in_tree(q) ==> (#[trigger] table.tree(m).value(q)) == 0
                &&& forall|q: int|
                    tables::in_tree(q) ==> !(#[trigger] table.tree(m).blocked(q))
            })
        }
    }

    /// Allocates a root with a given address width: 42 bits for a root of 64 top-level entries, 39
    /// bits for one of eight.
    pub fn new_with_ias(mem: &mut TableMemory, oas: u32, ias: usize) -> (out: Result<Self, Error>)
        requires
            old(mem).wf(),
        ensures
            Self::created(*old(mem), *final(mem), oas, ias, out),
    {
        if ias < 14 || ias > 47 || oas < 14 || oas > 52 {
            return Err(Error::EINVAL);
        }
        let ttb: u64 = match mem.take_table() {
            None => {
                return Err(Error::ENOMEM);
            },
            Some(ttb) => ttb,
        };
        let oas_mask: u64 = low_mask(oas);
        let ias_mask: u64 = low_mask(ias as u32);
        let table = UatPageTable {
            ttb,
            ttb_owned: true,
            va_range: 0..ias_mask + 1,
            oas_mask,
            ias_mask,
            owned_tables: Vec::new(),
            walked_tables: Vec::new(),
        };
        proof {
            let t = table.tree(*mem);
            lemma_empty_root(t);
            assert(old(mem).free@[old(mem).free@.len() - 1] == ttb);
            if old(mem).free_ok(oas_mask) {
                lemma_free_taken(*old(mem), *mem, oas_mask);
            }
        }
        Ok(table)
    }

    /// Whether a root in firmware memory may be borrowed for a range.
    pub open spec fn borrowable(ttb: u64, va_range: Range<u64>, oas: u32, ias: usize) -> bool {
        &&& Self::widths_ok(oas, ias)
        &&& va_range.start < va_range.end
        &&& va_range.end - va_range.start <= pow2(ias as nat)
        &&& ttb % 0x4000 == 0
        &&& va_range.start % 0x4000 == 0
        &&& va_range.end % 0x4000 == 0
    }

    /// What borrowing a root answers.
    pub open spec fn borrowed(
        mem: TableMemory,
        ttb: u64,
        va_range: Range<u64>,
        oas: u32,
        ias: usize,
        out: Result<Self, Error>,
    ) -> bool {
        if !Self::borrowable(ttb, va_range, oas, ias) {
            out == Err::<Self, Error>(Error::EINVAL)
        } else if !mem.map().contains_key(ttb) {
            out == Err::<Self, Error>(Error::EIO)
        } else {
            &&& out is Ok
            &&& ({
                let table = out->Ok_0;
                &&& table.ttb == ttb
                &&& !table.ttb_owned
                &&& table.va_range == va_range
                &&& table.oas_mask == pow2(oas as nat) - 1
                &&& table.ias_mask == pow2(ias as nat) - 1
                &&& table.owned_tables@.len() == 0
                &&& table.walked_tables@.len() == 0
                &&& mem.wf() && mem.free_ok(table.oas_mask) && table.tree(mem).wf() ==> table.wf(
                    mem,
                )
            })
        }
    }

    /// Borrows a firmware root of 39 address bits.
    pub fn new_with_ttb(mem: &TableMemory, ttb: u64, va_range: Range<u64>, oas: u32) -> (out: Result<
        Self,
        Error,
    >)
        ensures
            Self::borrowed(*mem, ttb, va_range, oas, UAT_IAS, out),
    {
        Self::new_with_ttb_and_ias(mem, ttb, va_range, oas, UAT_IAS)
    }

    /// Borrows a firmware root without owning its existing child tables.
    pub fn new_with_ttb_and_ias(
        mem: &TableMemory,
        ttb: u64,
        va_range: Range<u64>,
        oas: u32,
        ias: usize,
    ) -> (out: Result<Self, Error>)
        ensures
            Self::borrowed(*mem, ttb, va_range, oas, ias, out),
    {
        if ias < 14 || ias > 47 || oas < 14 || oas > 52 || va_range.start >= va_range.end {
            return Err(Error::EINVAL);
        }
        let oas_mask: u64 = low_mask(oas);
        let ias_mask: u64 = low_mask(ias as u32);
        if va_range.end - va_range.start > ias_mask + 1 || ttb % 0x4000 != 0 || va_range.start
            % 0x4000 != 0 || va_range.end % 0x4000 != 0 {
            return Err(Error::EINVAL);
        }
        if !mem.contains(ttb) {
            return Err(Error::EIO);
        }
        Ok(
            UatPageTable {
                ttb,
                ttb_owned: false,
                va_range,
                oas_mask,
                ias_mask,
                owned_tables: Vec::new(),
                walked_tables: Vec::new(),
            },
        )
    }

    /// Physical address of the root.
    pub fn ttb(&self) -> (out: u64)
        ensures
            out == self.ttb,
    {
        self.ttb
    }

    /// The tables whose contents a noncoherent walker has to be shown: the root, then every table
    /// that a walk came through, inherited ones among them.
    pub fn sync(&self) -> (out: Vec<u64>)
        ensures
            out@ == seq![self.ttb] + self.walked_tables@,
    {
        let mut out: Vec<u64> = Vec::new();
        out.push(self.ttb);
        let mut i: usize = 0;
        while i < self.walked_tables.len()
            invariant
                i <= self.walked_tables@.len(),
                out@ == seq![self.ttb] + self.walked_tables@.take(i as int),
            decreases self.walked_tables@.len() - i,
        {
            out.push(self.walked_tables[i]);
            i += 1;
            assert(self.walked_tables@.take(i as int) == self.walked_tables@.take(i - 1).push(
                self.walked_tables@[i - 1],
            ));
        }
        assert(self.walked_tables@.take(i as int) == self.walked_tables@);
        out
    }

    /// Walks the pages of an address range, adding tables where asked to, and edits the leaf entry
    /// of every page it reaches.
    #[verifier::rlimit(60)]
    pub fn with_pages(
        &mut self,
        mem: &mut TableMemory,
        range: Range<u64>,
        alloc: bool,
        edit: &Edit,
    ) -> (out: Result<(), Error>)
        requires
            old(self).wf(*old(mem)),
            walk::representable(
                *edit,
                walk::visits(
                    old(self).tree(*old(mem)),
                    alloc,
                    old(self).first_page(range.start),
                    old(self).end_page(range.end),
                ),
            ),
        ensures
            old(self).walk_done(*old(mem), *final(self), *final(mem), range, alloc, *edit, out),
    {
        if range.start % 0x4000 != 0 || range.end % 0x4000 != 0 {
            return Err(Error::EINVAL);
        }
        if range.start >= range.end {
            return Ok(());
        }
        let ghost s0 = *self;
        let ghost m0 = *mem;
        let ghost t0 = self.tree(*mem);
        proof {
            self.lemma_pages(range.start, range.end);
            walk::lemma_framed_refl(t0);
            walk::lemma_recorded_more(t0, t0, Seq::empty(), self.walked_tables@, None);
            assert(mem.free@.take(mem.free@.len() as int) == mem.free@);
            assert(self.owned_tables@.take(self.owned_tables@.len() as int) == self.owned_tables@);
        }
        let lo: u64 = (range.start & self.ias_mask) / 0x4000;
        let hi: u64 = (((range.end - 1) & self.ias_mask) + 1) / 0x4000;
        let mut page: u64 = lo;
        let mut done: u64 = 0;
        let ghost mut m: int = lo as int;
        proof {
            assert(lo == s0.first_page(range.start));
            assert(hi == s0.end_page(range.end));
            if hi < lo {
                m = hi as int;
            }
        }
        while page < hi
            invariant
                lo <= page,
                hi <= PAGES,
                page <= PAGES + 0x400000,
                page == lo || page % 0x800 == 0,
                m == if page < hi {
                    page as int
                } else {
                    hi as int
                },
                s0 == *old(self),
                m0 == *old(mem),
                t0 == s0.tree(m0),
                lo == s0.first_page(range.start),
                hi == s0.end_page(range.end),
                range.start % 0x4000 == 0,
                range.end % 0x4000 == 0,
                range.start < range.end,
                walk::representable(*edit, walk::visits(t0, alloc, lo as int, hi as int)),
                done <= page,
                page < hi ==> done == walk::visits(t0, alloc, lo as int, m),
                s0.walk_kept(m0, *self, *mem),
                walk::outcome(t0, self.tree(*mem), alloc, *edit, lo as int, m),
                walk::links_kept(t0, self.tree(*mem), alloc, lo as int, page as int),
                alloc ==> m0.free@.len() - mem.free@.len() == walk::needed(t0, lo as int, m),
                !alloc ==> mem.free@ == m0.free@,
                !alloc && *edit == Edit::Keep ==> mem.map() == m0.map(),
            decreases PAGES + 0x400000 - page,
        {
            let ghost t = self.tree(*mem);
            let ghost s1 = *self;
            let ghost m1 = *mem;
            let ghost p = page as int;
            let ghost i = tables::upper(p);
            let ghost j = tables::middle(p);
            proof {
                tables::lemma_positions(p);
                tables::lemma_zero_bits();
                walk::lemma_needed_monotone(t0, lo as int, p + 1, hi as int);
                if alloc && !t0.blocked(p) {
                    walk::lemma_need_at(t0, t, lo as int, p);
                }
                assert(t.blocked(p) == t0.blocked(p));
            }
            let table: u64 = match self.upper_table(mem, page, alloc, Ghost(t0)) {
                Err(e) => {
                    proof {
                        lemma_grown_trans(s0, m0, s1, m1, *self, *mem);
                        assert(walk::outcome(t0, self.tree(*mem), alloc, *edit, lo as int, p));
                    }
                    return Err(e);
                },
                Ok(None) => {
                    proof {
                        let stop = if (p / 0x400000 + 1) * 0x400000 < hi {
                            (p / 0x400000 + 1) * 0x400000
                        } else {
                            hi as int
                        };
                        walk::lemma_skip_upper(t0, t, alloc, *edit, lo as int, p, stop);
                        lemma_grown_trans(s0, m0, s1, m1, *self, *mem);
                        m = stop;
                    }
                    page = (page / 0x400000 + 1) * 0x400000;
                    continue;
                },
                Ok(Some(table)) => table,
            };
            let ghost t1 = self.tree(*mem);
            let ghost s2 = *self;
            let ghost m2 = *mem;
            proof {
                lemma_grown_trans(s0, m0, s1, m1, s2, m2);
                assert(t1.leaf(i, j) == t.leaf(i, j));
                lemma_outcome_same(t0, t, t1, alloc, *edit, lo as int, p);
            }
            let leaf: u64 = match self.leaf_table(mem, table, page, alloc, Ghost(t0)) {
                Err(e) => {
                    proof {
                        lemma_grown_trans(s0, m0, s2, m2, *self, *mem);
                        assert(!t1.blocked(p));
                        assert(walk::outcome(t0, self.tree(*mem), alloc, *edit, lo as int, p));
                    }
                    return Err(e);
                },
                Ok(None) => {
                    proof {
                        assert(alloc ==> t1.blocked(p));
                        assert(t1.blocked(p) == t.blocked(p));
                        assert(t.l1(i) is Some);
                        let stop = if (p / 0x800 + 1) * 0x800 < hi {
                            (p / 0x800 + 1) * 0x800
                        } else {
                            hi as int
                        };
                        walk::lemma_skip_leaf(t0, t1, alloc, *edit, lo as int, p, stop);
                        lemma_grown_trans(s0, m0, s2, m2, *self, *mem);
                        m = stop;
                    }
                    page = (page / 0x800 + 1) * 0x800;
                    continue;
                },
                Ok(Some(leaf)) => leaf,
            };
            let ghost t2 = self.tree(*mem);
            let ghost s3 = *self;
            let ghost m3 = *mem;
            self.remember(leaf);
            let next: u64 = (page / 0x800 + 1) * 0x800;
            let stop: u64 = if next < hi {
                next
            } else {
                hi
            };
            proof {
                lemma_grown_trans(s0, m0, s2, m2, s3, m3);
                lemma_outcome_same(t0, t1, t2, alloc, *edit, lo as int, p);
                walk::lemma_links_grown(t0, t, t2, alloc, lo as int, p);
                walk::lemma_block_visited(t0, t2, alloc, p, stop as int);
                walk::lemma_needed_block(t0, lo as int, p, stop as int);
                walk::lemma_visits_monotone(t0, alloc, lo as int, stop as int, hi as int);
                walk::lemma_recorded_more(
                    t0,
                    t2,
                    s3.walked_tables@,
                    self.walked_tables@,
                    if t.leaf(i, j) is Some {
                        None
                    } else {
                        Some(leaf)
                    },
                );
                assert(self.tree(*mem) == t2);
            }
            done = self.edit_leaf(
                mem,
                leaf,
                page,
                stop,
                edit,
                done,
                Ghost(t0),
                Ghost(alloc),
                Ghost(lo as int),
            );
            proof {
                lemma_links_same(t0, t2, self.tree(*mem), alloc, lo as int, next as int);
                m = stop as int;
            }
            page = next;
        }
        Ok(())
    }

    /// The level-one table of a page.
    fn find_upper(&self, mem: &TableMemory, page: u64) -> (out: Option<u64>)
        requires
            self.wf(*mem),
            page < PAGES,
        ensures
            out == self.tree(*mem).l1(tables::upper(page as int)),
    {
        proof {
            tables::lemma_positions(page as int);
        }
        let entry: u64 = mem.read(self.ttb, (page / 0x400000) as usize);
        if entry & 3 == 3 {
            Some(entry & self.oas_mask & !0x3fffu64)
        } else {
            None
        }
    }

    /// The leaf table of a page whose level-one table is known.
    fn find_leaf(&self, mem: &TableMemory, table: u64, page: u64) -> (out: Option<u64>)
        requires
            self.wf(*mem),
            page < PAGES,
            self.tree(*mem).l1(tables::upper(page as int)) == Some(table),
        ensures
            out == self.tree(*mem).leaf_of(page as int),
    {
        proof {
            tables::lemma_positions(page as int);
        }
        let entry: u64 = mem.read(table, ((page / 0x800) % 0x800) as usize);
        if entry & 3 == 3 {
            Some(entry & self.oas_mask & !0x3fffu64)
        } else {
            None
        }
    }

    /// The leaf entry of a page, zero where no leaf table exists.
    pub fn lookup(&self, mem: &TableMemory, page: u64) -> (out: u64)
        requires
            self.wf(*mem),
            page < PAGES,
        ensures
            out == self.tree(*mem).value(page as int),
    {
        proof {
            tables::lemma_positions(page as int);
        }
        let table: u64 = match self.find_upper(mem, page) {
            None => {
                return 0;
            },
            Some(table) => table,
        };
        match self.find_leaf(mem, table, page) {
            None => 0,
            Some(leaf) => {
                assert(self.tree(*mem).leaf(
                    tables::upper(page as int),
                    tables::middle(page as int),
                ) == Some(leaf));
                mem.read(leaf, (page % 0x800) as usize)
            },
        }
    }

    /// Adds the tables that an address range needs, and maps nothing.
    pub fn alloc_pages(&mut self, mem: &mut TableMemory, range: Range<u64>) -> (out: Result<
        (),
        Error,
    >)
        requires
            old(self).wf(*old(mem)),
        ensures
            old(self).walk_done(*old(mem), *final(self), *final(mem), range, true, Edit::Keep, out),
    {
        self.with_pages(mem, range, true, &Edit::Keep)
    }

    /// The type bits of a mapping. An owned root belongs to one address space, so its mappings are
    /// not global; the borrowed root is that of the firmware, whose mappings are.
    pub open spec fn type_bits(self) -> u64 {
        if self.ttb_owned {
            0x803
        } else {
            3
        }
    }

    /// The type bits of a mapping.
    pub fn pte_bits(&self) -> (out: u64)
        ensures
            out == self.type_bits(),
    {
        if self.ttb_owned {
            0x803
        } else {
            3
        }
    }

    /// The edit that maps pages with given rights.
    pub open spec fn mapping(self, phys: u64, prot: Prot, one_page: bool) -> Edit {
        Edit::Install { phys, bits: prot::pte_of(prot) | self.type_bits(), one_page }
    }

    /// Maps an address range to consecutive pages, or all of it to one page.
    pub fn map_pages(
        &mut self,
        mem: &mut TableMemory,
        range: Range<u64>,
        phys: u64,
        prot: Prot,
        one_page: bool,
    ) -> (out: Result<(), Error>)
        requires
            old(self).wf(*old(mem)),
            walk::representable(
                old(self).mapping(phys, prot, one_page),
                walk::visits(
                    old(self).tree(*old(mem)),
                    true,
                    old(self).first_page(range.start),
                    old(self).end_page(range.end),
                ),
            ),
        ensures
            if phys % 0x4000 != 0 {
                out == Err::<(), Error>(Error::EINVAL) && *final(self) == *old(self) && *final(mem)
                    == *old(mem)
            } else {
                old(self).walk_done(
                    *old(mem),
                    *final(self),
                    *final(mem),
                    range,
                    true,
                    old(self).mapping(phys, prot, one_page),
                    out,
                )
            },
    {
        if phys % 0x4000 != 0 {
            return Err(Error::EINVAL);
        }
        let bits: u64 = prot.as_pte() | self.pte_bits();
        self.with_pages(mem, range, true, &Edit::Install { phys, bits, one_page })
    }

    /// The byte address that an address translates to.
    pub open spec fn translation(self, mem: TableMemory, iova: u64) -> Option<u64> {
        let entry = self.tree(mem).value(self.first_page(iova));
        if tables::is_valid(entry) {
            Some((tables::frame_of(entry, self.oas_mask) + iova % 0x4000) as u64)
        } else {
            None
        }
    }

    /// Whether the page of an address lies inside the range of the root.
    pub open spec fn in_range(self, iova: u64) -> bool {
        let page = iova - iova % 0x4000;
        page + 0x4000 <= u64::MAX && self.va_range.start <= page && page + 0x4000
            <= self.va_range.end
    }

    /// Resolves a mapped byte address without adding tables.
    pub fn translate(&mut self, mem: &mut TableMemory, iova: u64) -> (out: Result<
        Option<u64>,
        Error,
    >)
        requires
            old(self).wf(*old(mem)),
        ensures
            final(self).wf(*final(mem)),
            final(self).same_root(*old(self)),
            final(self).owned_tables@ == old(self).owned_tables@,
            final(mem).map() == old(mem).map(),
            final(mem).free@ == old(mem).free@,
            out == if old(self).in_range(iova) {
                Ok(old(self).translation(*old(mem), iova))
            } else {
                Err::<Option<u64>, Error>(Error::EINVAL)
            },
    {
        let page: u64 = iova - iova % 0x4000;
        let end: u64 = match page.checked_add(UAT_PGSZ) {
            None => {
                return Err(Error::EINVAL);
            },
            Some(end) => end,
        };
        if page < self.va_range.start || end > self.va_range.end {
            return Err(Error::EINVAL);
        }
        let ghost s0 = *self;
        let ghost m0 = *mem;
        let walked = self.with_pages(mem, page..end, false, &Edit::Keep);
        proof {
            s0.lemma_pages(page, end);
            s0.lemma_page_of(iova);
            lemma_kept_grown(s0, m0, *self, *mem);
        }
        let number: u64 = (page & self.ias_mask) / 0x4000;
        let entry: u64 = self.lookup(mem, number);
        if entry & 3 == 3 {
            proof {
                lemma_frame_offset(entry, self.oas_mask, iova);
            }
            Ok(Some((entry & self.oas_mask & !0x3fffu64) | (iova % 0x4000)))
        } else {
            Ok(None)
        }
    }

    /// Reads the leaf entry of a mapped page, so that it can be put back later.
    pub fn leaf(&mut self, mem: &mut TableMemory, address: u64) -> (out: Result<u64, Error>)
        requires
            old(self).wf(*old(mem)),
            address % 0x4000 == 0 ==> address + 0x4000 <= u64::MAX,
        ensures
            final(self).wf(*final(mem)),
            final(self).same_root(*old(self)),
            final(self).owned_tables@ == old(self).owned_tables@,
            final(mem).map() == old(mem).map(),
            final(mem).free@ == old(mem).free@,
            out == if address % 0x4000 == 0 && tables::is_valid(
                old(self).tree(*old(mem)).value(old(self).first_page(address)),
            ) {
                Ok(old(self).tree(*old(mem)).value(old(self).first_page(address)))
            } else {
                Err::<u64, Error>(Error::EINVAL)
            },
    {
        if address % 0x4000 != 0 {
            return Err(Error::EINVAL);
        }
        let ghost s0 = *self;
        let ghost m0 = *mem;
        let walked = self.with_pages(mem, address..address + UAT_PGSZ, false, &Edit::Keep);
        proof {
            s0.lemma_pages(address, (address + 0x4000) as u64);
            lemma_kept_grown(s0, m0, *self, *mem);
        }
        let number: u64 = (address & self.ias_mask) / 0x4000;
        let entry: u64 = self.lookup(mem, number);
        if entry & 3 != 3 {
            return Err(Error::EINVAL);
        }
        Ok(entry)
    }

    /// Puts back a leaf entry that [`UatPageTable::leaf`] gave.
    pub fn restore_leaf(&mut self, mem: &mut TableMemory, address: u64, value: u64) -> (out: Result<
        (),
        Error,
    >)
        requires
            old(self).wf(*old(mem)),
            address % 0x4000 == 0 && tables::is_valid(value) ==> address + 0x4000 <= u64::MAX,
        ensures
            if address % 0x4000 != 0 || !tables::is_valid(value) {
                out == Err::<(), Error>(Error::EINVAL) && *final(self) == *old(self) && *final(mem)
                    == *old(mem)
            } else {
                &&& out is Ok
                &&& old(self).walk_kept(*old(mem), *final(self), *final(mem))
                &&& final(mem).free@ == old(mem).free@
                &&& final(self).tree(*final(mem)).same_links(old(self).tree(*old(mem)))
                &&& forall|q: int|
                    tables::in_tree(q) ==> #[trigger] final(self).tree(*final(mem)).value(q)
                        == if q == old(self).first_page(address) && old(self).tree(
                        *old(mem),
                    ).leaf_of(q) is Some {
                        value
                    } else {
                        old(self).tree(*old(mem)).value(q)
                    }
            },
    {
        if address % 0x4000 != 0 || value & 3 != 3 {
            return Err(Error::EINVAL);
        }
        let ghost s0 = *self;
        proof {
            self.lemma_one_page(address);
        }
        self.with_pages(mem, address..address + UAT_PGSZ, false, &Edit::Store { value })
    }

    /// Changes the rights of the mapped pages of a range.
    pub fn reprot_pages(&mut self, mem: &mut TableMemory, range: Range<u64>, prot: Prot) -> (out:
        Result<(), Error>)
        requires
            old(self).wf(*old(mem)),
        ensures
            old(self).walk_done(
                *old(mem),
                *final(self),
                *final(mem),
                range,
                true,
                (Edit::Protect { bits: prot::pte_of(prot) }),
                out,
            ),
    {
        let bits: u64 = prot.as_pte();
        self.with_pages(mem, range, true, &Edit::Protect { bits })
    }

    /// Removes the mappings of a range.
    pub fn unmap_pages(&mut self, mem: &mut TableMemory, range: Range<u64>) -> (out: Result<
        (),
        Error,
    >)
        requires
            old(self).wf(*old(mem)),
        ensures
            old(self).walk_done(
                *old(mem),
                *final(self),
                *final(mem),
                range,
                false,
                Edit::Clear,
                out,
            ),
    {
        self.with_pages(mem, range, false, &Edit::Clear)
    }

    /// The first address that the root serves with the top-level positions cleared.
    pub open spec fn iova_base(self) -> int {
        self.va_range.start - self.va_range.start as int % (self.ias_mask + 1)
    }

    /// Lists the mapped pages of a range for a core dump.
    pub fn dump_pages(&mut self, mem: &mut TableMemory, range: Range<u64>) -> (out: Result<
        Vec<DumpedPage>,
        Error,
    >)
        requires
            old(self).wf(*old(mem)),
        ensures
            final(self).wf(*final(mem)),
            final(self).same_root(*old(self)),
            final(self).owned_tables@ == old(self).owned_tables@,
            final(mem).map() == old(mem).map(),
            final(mem).free@ == old(mem).free@,
            if range.start % 0x4000 != 0 || range.end % 0x4000 != 0 {
                out == Err::<Vec<DumpedPage>, Error>(Error::EINVAL)
            } else {
                out is Ok && out->Ok_0@ == if range.start >= range.end {
                    Seq::empty()
                } else {
                    dumped(
                        old(self).tree(*old(mem)),
                        old(self).iova_base(),
                        old(self).first_page(range.start),
                        old(self).end_page(range.end),
                    )
                }
            },
    {
        let ghost s0 = *self;
        let ghost m0 = *mem;
        let start: u64 = range.start;
        let end: u64 = range.end;
        match self.with_pages(mem, range, false, &Edit::Keep) {
            Err(e) => {
                return Err(e);
            },
            Ok(_) => {},
        }
        let mut out: Vec<DumpedPage> = Vec::new();
        if start >= end {
            return Ok(out);
        }
        proof {
            s0.lemma_pages(start, end);
            lemma_kept_grown(s0, m0, *self, *mem);
            self.lemma_base();
        }
        let base: u64 = self.va_range.start - (self.va_range.start & self.ias_mask);
        let lo: u64 = (start & self.ias_mask) / 0x4000;
        let hi: u64 = (((end - 1) & self.ias_mask) + 1) / 0x4000;
        let ghost t = self.tree(*mem);
        let mut page: u64 = lo;
        while page < hi
            invariant
                lo <= page,
                hi <= PAGES,
                hi * 0x4000 <= self.ias_mask + 1,
                page <= PAGES + 0x400000,
                self.wf(*mem),
                t == self.tree(*mem),
                base == self.iova_base(),
                base + self.ias_mask <= u64::MAX,
                out@ == dumped(
                    t,
                    base as int,
                    lo as int,
                    if page < hi {
                        page as int
                    } else {
                        hi as int
                    },
                ) || hi < lo,
                hi < lo ==> out@.len() == 0,
            decreases PAGES + 0x400000 - page,
        {
            let ghost p = page as int;
            let table: u64 = match self.find_upper(mem, page) {
                None => {
                    proof {
                        let next = (p / 0x400000 + 1) * 0x400000;
                        lemma_dump_skip(
                            t,
                            base as int,
                            lo as int,
                            p,
                            if next < hi {
                                next
                            } else {
                                hi as int
                            },
                        );
                    }
                    page = (page / 0x400000 + 1) * 0x400000;
                    continue;
                },
                Some(table) => table,
            };
            let leaf: u64 = match self.find_leaf(mem, table, page) {
                None => {
                    proof {
                        let next = (p / 0x800 + 1) * 0x800;
                        lemma_dump_skip(
                            t,
                            base as int,
                            lo as int,
                            p,
                            if next < hi {
                                next
                            } else {
                                hi as int
                            },
                        );
                    }
                    page = (page / 0x800 + 1) * 0x800;
                    continue;
                },
                Some(leaf) => leaf,
            };
            proof {
                tables::lemma_positions(p);
                assert(t.leaf(tables::upper(p), tables::middle(p)) == Some(leaf));
            }
            let pte: u64 = mem.read(leaf, (page % 0x800) as usize);
            if pte & 3 == 3 {
                let memattr: u64 = (pte & 0x1c) >> 2;
                let frame = if memattr == 0 || memattr == 2 {
                    Some(pte & self.oas_mask & !0x3fffu64)
                } else {
                    None
                };
                out.push(DumpedPage { iova: base + page * 0x4000, pte, frame });
            }
            page += 1;
        }
        assert(out@ == dumped(t, base as int, lo as int, hi as int));
        Ok(out)
    }

    /// The base of the range is a multiple of its size.
    proof fn lemma_base(self)
        requires
            self.geometry_ok(),
        ensures
            self.va_range.start & self.ias_mask == self.va_range.start as int % (self.ias_mask + 1),
            0 <= self.iova_base(),
            self.iova_base() + self.ias_mask <= u64::MAX,
    {
        let size = self.ias_mask + 1;
        let start = self.va_range.start;
        vstd::arithmetic::div_mod::lemma_mod_bound(start as int, size);
        vstd::arithmetic::div_mod::lemma_fundamental_div_mod(start as int, size);
        assert(start & self.ias_mask == start as int % size);
        let top = 0xffff_ffff_ffff_ffffu64;
        assert(top & self.ias_mask == top as int % size);
        vstd::arithmetic::div_mod::lemma_fundamental_div_mod(top as int, size);
        let mask = self.ias_mask;
        assert(top & mask == mask) by (bit_vector)
            requires
                top == 0xffff_ffff_ffff_ffffu64,
        ;
        let a = start as int / size;
        let b = top as int / size;
        assert(a <= b) by {
            vstd::arithmetic::div_mod::lemma_div_is_ordered(start as int, top as int, size);
        }
        assert(size * a <= size * b) by (nonlinear_arith)
            requires
                a <= b,
                size > 0,
        ;
    }

    /// Whether a page was reached through one of the listed tables, from a position on.
    pub open spec fn dropped(t: Tree, owned: Seq<OwnedTable>, from: int, page: int) -> bool {
        exists|k: int|
            from <= k < owned.len() && {
                let phys = (#[trigger] owned[k]).phys;
                t.l1(tables::upper(page)) == Some(phys) || t.leaf_of(page) == Some(phys)
            }
    }

    /// Gives back the tables that this owner added, and the root where it is owned too. Tables that
    /// were there before, and what they map, stay.
    pub fn release(self, mem: &mut TableMemory)
        requires
            self.wf(*old(mem)),
        ensures
            final(mem).wf(),
            final(mem).free@ == old(mem).free@ + self.given_back(),
            !self.ttb_owned ==> final(mem).free_ok(self.oas_mask),
            forall|x: u64| #[trigger]
                final(mem).map().contains_key(x) == (old(mem).map().contains_key(x)
                    && !self.given_back().contains(x)),
            forall|x: u64|
                #![trigger final(mem).map()[x]]
                final(mem).map().contains_key(x) && !self.tree(*old(mem)).holds(x)
                    ==> final(mem).map()[x] == old(mem).map()[x],
            !self.ttb_owned ==> {
                &&& self.tree(*final(mem)).wf()
                &&& unlinked(self.tree(*old(mem)), self.tree(*final(mem)), self.owned_tables@, 0)
                &&& forall|q: int|
                    tables::in_tree(q) && #[trigger] self.tree(*final(mem)).blocked(q) ==> self.tree(
                        *old(mem),
                    ).blocked(q)
                &&& forall|q: int|
                    tables::in_tree(q) ==> #[trigger] self.tree(*final(mem)).value(q)
                        == if Self::dropped(
                        self.tree(*old(mem)),
                        self.owned_tables@,
                        0,
                        q,
                    ) {
                        0
                    } else {
                        self.tree(*old(mem)).value(q)
                    }
            },
    {
        let ghost t0 = self.tree(*mem);
        let ghost owned = self.owned_tables@;
        let ghost free0 = mem.free@;
        let mut left: usize = self.owned_tables.len();
        assert(owned.take(left as int) == owned);
        assert(mem.free@ == free0 + given_back_from(owned, left as int));
        while left > 0
            invariant
                left <= owned.len(),
                owned == self.owned_tables@,
                t0 == self.tree(*old(mem)),
                t0.wf(),
                owned_ok(t0, owned),
                self.geometry_ok(),
                mem.wf(),
                self.tree(*mem).wf(),
                owned_ok(self.tree(*mem), owned.take(left as int)),
                mem.free@ == free0 + given_back_from(owned, left as int),
                forall|x: u64| #[trigger]
                    mem.map().contains_key(x) == (t0.tables.contains_key(x) && !given_back_from(
                        owned,
                        left as int,
                    ).contains(x)),
                forall|x: u64|
                    #![trigger mem.map()[x]]
                    mem.map().contains_key(x) && !t0.holds(x) ==> mem.map()[x] == t0.tables[x],
                forall|q: int|
                    tables::in_tree(q) ==> #[trigger] self.tree(*mem).value(q) == if Self::dropped(
                        t0,
                        owned,
                        left as int,
                        q,
                    ) {
                        0
                    } else {
                        t0.value(q)
                    },
                unlinked(t0, self.tree(*mem), owned, left as int),
                forall|q: int|
                    tables::in_tree(q) && #[trigger] self.tree(*mem).blocked(q) ==> t0.blocked(q),
            decreases left,
        {
            let ghost t = self.tree(*mem);
            let ghost n = (left - 1) as int;
            left -= 1;
            let table: OwnedTable = self.owned_tables[left];
            proof {
                assert(owned.take(n + 1)[n] == table);
                assert(owned[n] == table);
            }
            mem.write(table.parent, table.index, 0);
            mem.release_table(table.phys);
            proof {
                assert(self.tree(*mem) == t.cut(table.parent, table.index as int, table.phys));
                lemma_release_step(t0, t, self.tree(*mem), owned, n);
                assert(mem.free@ =~= free0 + given_back_from(owned, n));
            }
        }
        if self.ttb_owned {
            mem.release_table(self.ttb);
        }
        proof {
            let all = given_back_from(owned, 0);
            if !self.ttb_owned {
                self.lemma_pool_refilled(*old(mem), *mem);
            }
            assert(self.given_back() == if self.ttb_owned {
                all.push(self.ttb)
            } else {
                all
            });
            if self.ttb_owned {
                assert(mem.free@ =~= free0 + self.given_back());
                assert forall|x: u64| self.given_back().contains(x) == (all.contains(x) || x
                    == self.ttb) by {
                    assert(self.given_back()[all.len() as int] == self.ttb);
                    if all.contains(x) {
                        let k = choose|k: int| 0 <= k < all.len() && all[k] == x;
                        assert(self.given_back()[k] == x);
                    }
                    if self.given_back().contains(x) {
                        let k = choose|k: int|
                            0 <= k < self.given_back().len() && self.given_back()[k] == x;
                        if k < all.len() {
                            assert(all[k] == x);
                        }
                    }
                }
            }
        }
    }

    /// The pages that were given back are page addresses, distinct, and no tables any more.
    proof fn lemma_pool_refilled(self, m0: TableMemory, m: TableMemory)
        requires
            self.wf(m0),
            m.free@ == m0.free@ + given_back_from(self.owned_tables@, 0),
            forall|x: u64| #[trigger]
                m.map().contains_key(x) == (m0.map().contains_key(x) && !given_back_from(
                    self.owned_tables@,
                    0,
                ).contains(x)),
        ensures
            m.free_ok(self.oas_mask),
    {
        let owned = self.owned_tables@;
        let all = given_back_from(owned, 0);
        let n = m0.free@.len() as int;
        assert forall|k: int| 0 <= k < m.free@.len() implies {
            &&& !m.map().contains_key(#[trigger] m.free@[k])
            &&& tables::frame_of(m.free@[k], self.oas_mask) == m.free@[k]
        } by {
            if k < n {
                assert(m.free@[k] == m0.free@[k]);
            } else {
                assert(m.free@[k] == all[k - n]);
                assert(all.contains(all[k - n]));
                assert(owned[owned.len() - 1 - (k - n)].phys == all[k - n]);
            }
        }
        assert forall|j: int, k: int| 0 <= j < k < m.free@.len() implies #[trigger] m.free@[j]
            != #[trigger] m.free@[k] by {
            if k < n {
                assert(m.free@[j] == m0.free@[j] && m.free@[k] == m0.free@[k]);
            } else {
                let b = owned.len() - 1 - (k - n);
                assert(m.free@[k] == owned[b].phys);
                if j < n {
                    assert(m.free@[j] == m0.free@[j]);
                    assert(m0.map().contains_key(owned[b].phys));
                } else {
                    let a = owned.len() - 1 - (j - n);
                    assert(m.free@[j] == owned[a].phys);
                    assert(owned[b].phys != owned[a].phys);
                }
            }
        }
    }

    /// The pages that giving the tables back returns, in order: the added tables from the last one
    /// on, then an owned root.
    pub open spec fn given_back(self) -> Seq<u64> {
        let all = given_back_from(self.owned_tables@, 0);
        if self.ttb_owned {
            all.push(self.ttb)
        } else {
            all
        }
    }

    /// The pages before and after rounding an address down are the same.
    proof fn lemma_page_of(self, iova: u64)
        requires
            self.geometry_ok(),
        ensures
            self.first_page((iova - iova % 0x4000) as u64) == self.first_page(iova),
            0 <= self.first_page(iova) < PAGES,
    {
        let size = self.ias_mask + 1;
        let k = size / 0x4000;
        assert(size == 0x4000 * k);
        let page = iova - iova % 0x4000;
        let r = page % size;
        vstd::arithmetic::div_mod::lemma_mod_bound(page, size);
        vstd::arithmetic::div_mod::lemma_mod_bound(iova as int, size);
        vstd::arithmetic::div_mod::lemma_mod_mod(page, 0x4000, k);
        assert(r % 0x4000 == 0);
        vstd::arithmetic::div_mod::lemma_fundamental_div_mod(page, size);
        let q = page / size;
        assert(size * q == q * size) by (nonlinear_arith);
        vstd::arithmetic::div_mod::lemma_fundamental_div_mod_converse(
            iova as int,
            size,
            q,
            r + iova % 0x4000,
        );
    }

    /// An aligned address opens a range of one page.
    proof fn lemma_one_page(self, address: u64)
        requires
            self.geometry_ok(),
            address % 0x4000 == 0,
            address + 0x4000 <= u64::MAX,
        ensures
            self.end_page((address + 0x4000) as u64) == self.first_page(address) + 1,
            0 <= self.first_page(address) < PAGES,
    {
        self.lemma_range_pages(address, (address + 0x4000) as u64);
    }

    /// Aligned ranges that do not cross the top of the address space cover their pages in order.
    pub proof fn lemma_range_pages(self, start: u64, end: u64)
        requires
            self.geometry_ok(),
            start % 0x4000 == 0,
            end % 0x4000 == 0,
            start < end,
            end - start <= 0x4000 || start as int / (self.ias_mask + 1) == (end - 1) / (
            self.ias_mask + 1),
        ensures
            self.end_page(end) - self.first_page(start) == (end - start) / 0x4000,
            0 <= self.first_page(start) < self.end_page(end) <= PAGES,
    {
        let size = self.ias_mask + 1;
        let k = size / 0x4000;
        assert(size == 0x4000 * k);
        let r = start as int % size;
        let q = start as int / size;
        vstd::arithmetic::div_mod::lemma_mod_bound(start as int, size);
        vstd::arithmetic::div_mod::lemma_mod_bound(end - 1, size);
        vstd::arithmetic::div_mod::lemma_mod_mod(start as int, 0x4000, k);
        vstd::arithmetic::div_mod::lemma_fundamental_div_mod(start as int, size);
        vstd::arithmetic::div_mod::lemma_fundamental_div_mod(end - 1, size);
        assert(size * q == q * size) by (nonlinear_arith);
        if end - start <= 0x4000 {
            vstd::arithmetic::div_mod::lemma_fundamental_div_mod_converse(
                end - 1,
                size,
                q,
                r + 0x3fff,
            );
        }
        assert((end - 1) / size == q);
        assert((end - 1) % size == r + (end - 1 - start));
    }

    /// The pages of a range lie in the tree.
    proof fn lemma_pages(self, start: u64, end: u64)
        requires
            self.geometry_ok(),
            start < end,
        ensures
            0 <= self.first_page(start) < PAGES,
            0 <= self.end_page(end) <= PAGES,
            start & self.ias_mask == start as int % (self.ias_mask + 1),
            ((end - 1) as u64) & self.ias_mask == (end - 1) % (self.ias_mask + 1),
            (start & self.ias_mask) < 0x8000_0000_0000,
            (((end - 1) as u64) & self.ias_mask) < 0x8000_0000_0000,
    {
        vstd::arithmetic::div_mod::lemma_mod_bound(start as int, self.ias_mask + 1);
        vstd::arithmetic::div_mod::lemma_mod_bound(end - 1, self.ias_mask + 1);
        assert(start & self.ias_mask == start as int % (self.ias_mask + 1));
        assert(((end - 1) as u64) & self.ias_mask == (end - 1) % (self.ias_mask + 1));
    }
}

/// Growing twice is growing.
proof fn lemma_grown_trans(
    a: UatPageTable,
    ma: TableMemory,
    b: UatPageTable,
    mb: TableMemory,
    c: UatPageTable,
    mc: TableMemory,
)
    requires
        a.grown(ma, b, mb),
        added_listed(ma, mb, b.owned_tables@),
        added_listed(mb, mc, c.owned_tables@),
        (mc.free@ == mb.free@ && c.owned_tables@ == b.owned_tables@) || (mb.free@.len() > 0
            && mc.free@ == mb.free@.drop_last() && c.owned_tables@ == b.owned_tables@.push(
            c.owned_tables@.last(),
        ) && c.owned_tables@.last().phys == mb.free@.last()),
    ensures
        a.grown(ma, c, mc),
        added_listed(ma, mc, c.owned_tables@),
{
    let n = a.owned_tables@.len();
    if c.owned_tables@ != b.owned_tables@ {
        lemma_last_listed(b.owned_tables@, c.owned_tables@);
    }
    let taken = ma.free@.len() - mc.free@.len();
    if !(mc.free@ == mb.free@ && c.owned_tables@ == b.owned_tables@) {
        assert(mc.free@ =~= ma.free@.take(mc.free@.len() as int));
        assert(c.owned_tables@.take(n as int) =~= b.owned_tables@.take(n as int));
        assert forall|k: int| 0 <= k < taken implies (#[trigger] c.owned_tables@[n + k]).phys
            == ma.free@[ma.free@.len() - 1 - k] by {
            if k < taken - 1 {
                assert(c.owned_tables@[n + k] == b.owned_tables@[n + k]);
            } else {
                assert(mb.free@.last() == mb.free@[mb.free@.len() - 1]);
            }
        }
    }
}

/// The pages of the listed tables from the last one down to a position.
pub open spec fn given_back_from(owned: Seq<OwnedTable>, from: int) -> Seq<u64> {
    Seq::new((owned.len() - from) as nat, |k: int| owned[owned.len() - 1 - k].phys)
}

/// Whether a link leads to one of the listed tables, from a position on.
pub open spec fn gone(owned: Seq<OwnedTable>, from: int, link: Option<u64>) -> bool {
    link is Some && given_back_from(owned, from).contains(link->0)
}

/// The links after the listed tables were given back: those to them, and those from them, are gone.
pub open spec fn unlinked(t0: Tree, t: Tree, owned: Seq<OwnedTable>, from: int) -> bool {
    &&& forall|i: int|
        0 <= i < ENTRIES ==> #[trigger] t.l1(i) == if gone(owned, from, t0.l1(i)) {
            None
        } else {
            t0.l1(i)
        }
    &&& forall|i: int, j: int|
        0 <= i < ENTRIES && 0 <= j < ENTRIES ==> #[trigger] t.leaf(i, j) == if gone(
            owned,
            from,
            t0.l1(i),
        ) || gone(owned, from, t0.leaf(i, j)) {
            None
        } else {
            t0.leaf(i, j)
        }
}

/// The entry that a core dump has for a page.
pub open spec fn dump_of(t: Tree, base: int, page: int) -> DumpedPage {
    let pte = t.value(page);
    let memattr = (pte & 0x1c) >> 2;
    DumpedPage {
        iova: (base + page * 0x4000) as u64,
        pte,
        frame: if memattr == 0 || memattr == 2 {
            Some(tables::frame_of(pte, t.oas_mask))
        } else {
            None
        },
    }
}

/// The mapped pages of a range, in order.
pub open spec fn dumped(t: Tree, base: int, lo: int, hi: int) -> Seq<DumpedPage>
    decreases hi - lo,
{
    if hi <= lo {
        Seq::empty()
    } else if tables::is_valid(t.value(hi - 1)) {
        dumped(t, base, lo, hi - 1).push(dump_of(t, base, hi - 1))
    } else {
        dumped(t, base, lo, hi - 1)
    }
}

/// Pages without a leaf table are not dumped.
proof fn lemma_dump_skip(t: Tree, base: int, lo: int, page: int, stop: int)
    requires
        0 <= lo <= page <= stop,
        stop <= (page / 0x400000 + 1) * 0x400000 && t.l1(tables::upper(page)) is None || stop <= (page
            / 0x800 + 1) * 0x800 && t.leaf_of(page) is None,
    ensures
        dumped(t, base, lo, stop) == dumped(t, base, lo, page),
    decreases stop - page,
{
    if page < stop {
        lemma_dump_skip(t, base, lo, page, stop - 1);
        let q = stop - 1;
        tables::lemma_zero_bits();
        if stop <= (page / 0x800 + 1) * 0x800 && t.leaf_of(page) is None {
            assert(q / 0x800 == page / 0x800);
            assert(q / 0x400000 == (q / 0x800) / 0x800);
            assert(page / 0x400000 == (page / 0x800) / 0x800);
        } else {
            assert(q / 0x400000 == page / 0x400000);
        }
        assert(t.value(q) == 0);
    }
}

/// Giving back the last listed table that is left.
#[verifier::rlimit(40)]
proof fn lemma_release_step(t0: Tree, t: Tree, n: Tree, owned: Seq<OwnedTable>, last: int)
    requires
        0 <= last < owned.len(),
        t0.wf(),
        owned_ok(t0, owned),
        t.wf(),
        t.root == t0.root,
        t.oas_mask == t0.oas_mask,
        owned_ok(t, owned.take(last + 1)),
        n == t.cut(owned[last].parent, owned[last].index as int, owned[last].phys),
        forall|x: u64| #[trigger]
            t.tables.contains_key(x) == (t0.tables.contains_key(x) && !given_back_from(
                owned,
                last + 1,
            ).contains(x)),
        forall|x: u64|
            #![trigger t.tables[x]]
            t.tables.contains_key(x) && !t0.holds(x) ==> t.tables[x] == t0.tables[x],
        forall|q: int|
            tables::in_tree(q) ==> #[trigger] t.value(q) == if UatPageTable::dropped(
                t0,
                owned,
                last + 1,
                q,
            ) {
                0
            } else {
                t0.value(q)
            },
        unlinked(t0, t, owned, last + 1),
        forall|q: int| tables::in_tree(q) && #[trigger] t.blocked(q) ==> t0.blocked(q),
    ensures
        n.wf(),
        owned_ok(n, owned.take(last)),
        forall|x: u64| #[trigger]
            n.tables.contains_key(x) == (t0.tables.contains_key(x) && !given_back_from(
                owned,
                last,
            ).contains(x)),
        forall|x: u64|
            #![trigger n.tables[x]]
            n.tables.contains_key(x) && !t0.holds(x) ==> n.tables[x] == t0.tables[x],
        forall|q: int|
            tables::in_tree(q) ==> #[trigger] n.value(q) == if UatPageTable::dropped(
                t0,
                owned,
                last,
                q,
            ) {
                0
            } else {
                t0.value(q)
            },
        unlinked(t0, n, owned, last),
        forall|q: int| tables::in_tree(q) && #[trigger] n.blocked(q) ==> t0.blocked(q),
{
    let o = owned[last];
    let now = owned.take(last + 1);
    let next = owned.take(last);
    assert(now[last] == o);
    tables::lemma_zero_bits();
    let at_root = o.parent == t.root;
    let i = if at_root {
        o.index as int
    } else {
        choose|k: int| 0 <= k < ENTRIES && #[trigger] t.l1(k) == Some(o.parent)
    };
    let j = o.index as int;
    if at_root {
        assert(t.l1(i) == Some(o.phys));
        tables::lemma_cut_upper(t, i, o.phys);
    } else {
        assert(is_level_one(t, o.parent));
        assert(t.l1(i) == Some(o.parent));
        assert(t.leaf(i, j) == Some(o.phys));
        tables::lemma_cut_leaf(t, i, j, o.phys);
    }
    assert forall|q: int| tables::in_tree(q) && #[trigger] n.blocked(q) implies t0.blocked(q) by {
        assert(t.blocked(q));
    }
    assert forall|x: u64| is_level_one(t, x) && x != o.phys implies #[trigger] is_level_one(n, x) by {
        let k = choose|k: int| 0 <= k < ENTRIES && #[trigger] t.l1(k) == Some(x);
        assert(n.l1(k) == Some(x));
    }
    assert forall|k: int| 0 <= k < next.len() implies {
        let p = #[trigger] next[k];
        &&& n.tables.contains_key(p.phys)
        &&& n.tables.contains_key(p.parent)
        &&& p.index < ENTRIES
        &&& p.phys != n.root
        &&& tables::frame_of(p.phys, n.oas_mask) == p.phys
        &&& n.link(p.parent, p.index as int) == Some(p.phys)
        &&& p.parent == n.root || is_level_one(n, p.parent)
    } by {
        assert(now[k] == next[k]);
        assert(now[k].phys != now[last].phys);
        assert(now[k].parent != now[last].phys);
    }
    assert forall|a: int, b: int| 0 <= a <= b < next.len() implies (#[trigger] next[a]).parent != (
    #[trigger] next[b]).phys by {
        assert(now[a] == next[a] && now[b] == next[b]);
    }
    assert forall|a: int, b: int| 0 <= a < b < next.len() implies (#[trigger] next[a]).phys != (
    #[trigger] next[b]).phys by {
        assert(now[a] == next[a] && now[b] == next[b]);
    }
    let g1 = given_back_from(owned, last + 1);
    let g = given_back_from(owned, last);
    assert(g == g1.push(o.phys));
    assert forall|x: u64| g.contains(x) == (g1.contains(x) || x == o.phys) by {
        assert(g[g1.len() as int] == o.phys);
        if g1.contains(x) {
            let k = choose|k: int| 0 <= k < g1.len() && g1[k] == x;
            assert(g[k] == x);
        }
        if g.contains(x) {
            let k = choose|k: int| 0 <= k < g.len() && g[k] == x;
            if k < g1.len() {
                assert(g1[k] == x);
            }
        }
    }
    assert forall|x: u64| #[trigger] n.tables.contains_key(x) == (t0.tables.contains_key(x)
        && !g.contains(x)) by {
        assert(t.tables.contains_key(x) == (t0.tables.contains_key(x) && !g1.contains(x)));
        assert(t.tables.contains_key(o.parent));
        assert(now[last].parent != now[last].phys);
    }
    assert(t0.holds(o.parent)) by {
        assert(owned_ok(t0, owned));
        assert(owned[last] == o);
        if o.parent != t0.root {
            assert(is_level_one(t0, o.parent));
        }
    }
    assert forall|x: u64|
        #![trigger n.tables[x]]
        n.tables.contains_key(x) && !t0.holds(x) implies n.tables[x] == t0.tables[x] by {
        assert(t.tables.contains_key(x));
        assert(x != o.parent);
        assert(t.tables[x] == t0.tables[x]);
    }
    assert forall|k: int| 0 <= k < ENTRIES implies #[trigger] n.l1(k) == if gone(
        owned,
        last,
        t0.l1(k),
    ) {
        None
    } else {
        t0.l1(k)
    } by {
        assert(t.l1(k) == if gone(owned, last + 1, t0.l1(k)) {
            None
        } else {
            t0.l1(k)
        });
        if at_root {
            if k != i {
                assert(t.l1(k) is Some ==> t.l1(k) != t.l1(i));
                assert(n.l1(k) == t.l1(k));
            }
        } else {
            assert(n.l1(k) == t.l1(k));
            assert(t.l1(k) is Some ==> t.leaf(i, j) != t.l1(k));
        }
    }
    assert forall|k: int, l: int| 0 <= k < ENTRIES && 0 <= l < ENTRIES implies #[trigger] n.leaf(
        k,
        l,
    ) == if gone(owned, last, t0.l1(k)) || gone(owned, last, t0.leaf(k, l)) {
        None
    } else {
        t0.leaf(k, l)
    } by {
        assert(t.l1(k) == if gone(owned, last + 1, t0.l1(k)) {
            None
        } else {
            t0.l1(k)
        });
        assert(t.leaf(k, l) == if gone(owned, last + 1, t0.l1(k)) || gone(
            owned,
            last + 1,
            t0.leaf(k, l),
        ) {
            None
        } else {
            t0.leaf(k, l)
        });
        if at_root {
            assert(t.leaf(k, l) != t.l1(i));
            if k != i {
                assert(t.l1(k) is Some ==> t.l1(k) != t.l1(i));
                assert(n.leaf(k, l) == t.leaf(k, l));
            }
        } else {
            assert(t.l1(k) is Some ==> t.leaf(i, j) != t.l1(k));
            assert(n.l1(k) == t.l1(k));
            if k != i || l != j {
                assert(t.leaf(k, l) is Some ==> t.leaf(i, j) != t.leaf(k, l));
                assert(n.leaf(k, l) == t.leaf(k, l));
            }
        }
    }
    assert forall|q: int| tables::in_tree(q) implies #[trigger] n.value(q)
        == if UatPageTable::dropped(t0, owned, last, q) {
        0
    } else {
        t0.value(q)
    } by {
        tables::lemma_positions(q);
        let u = tables::upper(q);
        let v = tables::middle(q);
        lemma_dropped_gone(t0, owned, last, q);
        lemma_dropped_gone(t0, owned, last + 1, q);
        assert(t.value(q) == if UatPageTable::dropped(t0, owned, last + 1, q) {
            0
        } else {
            t0.value(q)
        });
        assert(n.leaf(u, v) == if gone(owned, last, t0.l1(u)) || gone(owned, last, t0.leaf(u, v)) {
            None
        } else {
            t0.leaf(u, v)
        });
        assert(t.leaf(u, v) == if gone(owned, last + 1, t0.l1(u)) || gone(
            owned,
            last + 1,
            t0.leaf(u, v),
        ) {
            None
        } else {
            t0.leaf(u, v)
        });
    }
}

/// A page was reached through a listed table exactly if one of its links leads to one.
pub proof fn lemma_dropped_gone(t: Tree, owned: Seq<OwnedTable>, from: int, page: int)
    requires
        0 <= from <= owned.len(),
    ensures
        UatPageTable::dropped(t, owned, from, page) == (gone(
            owned,
            from,
            t.l1(tables::upper(page)),
        ) || gone(owned, from, t.leaf_of(page))),
{
    let g = given_back_from(owned, from);
    let a = t.l1(tables::upper(page));
    let b = t.leaf_of(page);
    if UatPageTable::dropped(t, owned, from, page) {
        let k = choose|k: int|
            from <= k < owned.len() && {
                let phys = (#[trigger] owned[k]).phys;
                a == Some(phys) || b == Some(phys)
            };
        assert(g[owned.len() - 1 - k] == owned[k].phys);
    }
    if gone(owned, from, a) {
        let k = choose|k: int| 0 <= k < g.len() && g[k] == a->0;
        assert(owned[owned.len() - 1 - k].phys == a->0);
    }
    if gone(owned, from, b) {
        let k = choose|k: int| 0 <= k < g.len() && g[k] == b->0;
        assert(owned[owned.len() - 1 - k].phys == b->0);
    }
}

/// A walk that takes no page adds no table.
pub proof fn lemma_kept_grown(a: UatPageTable, ma: TableMemory, b: UatPageTable, mb: TableMemory)
    requires
        a.grown(ma, b, mb),
        ma.free@ == mb.free@,
    ensures
        b.owned_tables@ == a.owned_tables@,
{
    assert(b.owned_tables@ =~= b.owned_tables@.take(a.owned_tables@.len() as int));
}

/// A page address and an offset do not overlap.
proof fn lemma_frame_offset(entry: u64, mask: u64, iova: u64)
    by (bit_vector)
    ensures
        (entry & mask & !0x3fffu64) | (iova % 0x4000) == (entry & mask & !0x3fffu64) + (iova % 0x4000),
{
}

/// A tree with the same entries is the same outcome.
proof fn lemma_outcome_same(
    t0: Tree,
    t: Tree,
    n: Tree,
    alloc: bool,
    edit: Edit,
    lo: int,
    page: int,
)
    requires
        walk::outcome(t0, t, alloc, edit, lo, page),
        n.same_values(t),
        n.same_blocked(t),
    ensures
        walk::outcome(t0, n, alloc, edit, lo, page),
{
    assert forall|q: int| tables::in_tree(q) implies #[trigger] n.value(q) == if lo <= q < page
        && walk::visited(t0, alloc, q) {
        walk::edited(edit, walk::visits(t0, alloc, lo, q), t0.value(q))
    } else {
        t0.value(q)
    } by {
        assert(n.value(q) == t.value(q));
    }
    assert forall|q: int| tables::in_tree(q) implies #[trigger] n.blocked(q) == t0.blocked(q) by {
        assert(t.blocked(q) == t0.blocked(q));
    }
}

/// A tree with the same links has kept the same links.
proof fn lemma_links_same(t0: Tree, t: Tree, n: Tree, alloc: bool, lo: int, page: int)
    requires
        walk::links_kept(t0, t, alloc, lo, page),
        n.same_links(t),
        0 <= page,
        page < PAGES || page % 0x400000 == 0,
    ensures
        walk::links_kept(t0, n, alloc, lo, page),
{
    assert forall|i: int| 0 <= i < ENTRIES && (#[trigger] n.l1(i) != t0.l1(i)) implies alloc
        && t0.l1(i) is None && i * 0x400000 < page && page != lo by {
        assert(n.l1(i) == t.l1(i));
    }
    assert forall|i: int, j: int|
        0 <= i < ENTRIES && 0 <= j < ENTRIES && (#[trigger] n.leaf(i, j) != t0.leaf(
            i,
            j,
        )) implies alloc && t0.leaf(i, j) is None && (i * 0x800 + j) * 0x800 < page && page
        != lo by {
        assert(n.leaf(i, j) == t.leaf(i, j));
    }
    if page % 0x400000 != 0 {
        tables::lemma_positions(page);
        assert(n.l1(tables::upper(page)) == t.l1(tables::upper(page)));
    }
}

/// Links that are kept twice are kept.
proof fn lemma_same_links_trans(a: Tree, b: Tree, c: Tree)
    requires
        a.same_links(b),
        b.same_links(c),
    ensures
        a.same_links(c),
{
    assert forall|i: int| 0 <= i < ENTRIES implies #[trigger] a.l1(i) == c.l1(i) by {
        assert(b.l1(i) == c.l1(i));
    }
    assert forall|i: int, j: int| 0 <= i < ENTRIES && 0 <= j < ENTRIES implies #[trigger] a.leaf(
        i,
        j,
    ) == c.leaf(i, j) by {
        assert(b.leaf(i, j) == c.leaf(i, j));
    }
}

/// Writing a leaf entry keeps the list of added tables in step.
proof fn lemma_owned_write(t: Tree, n: Tree, owned: Seq<OwnedTable>, page: int, value: u64)
    requires
        t.wf(),
        owned_ok(t, owned),
        tables::in_tree(page),
        t.leaf_of(page) is Some,
        n == t.write(t.leaf_of(page)->0, tables::lower(page), value),
        n.same_links(t),
    ensures
        owned_ok(n, owned),
{
    let table = t.leaf_of(page)->0;
    tables::lemma_positions(page);
    assert(t.leaf(tables::upper(page), tables::middle(page)) == Some(table));
    assert forall|x: u64| is_level_one(t, x) implies #[trigger] is_level_one(n, x) && x != table by {
        let k = choose|k: int| 0 <= k < ENTRIES && #[trigger] t.l1(k) == Some(x);
        assert(n.l1(k) == Some(x));
    }
    assert forall|i: int| 0 <= i < owned.len() implies {
        let o = #[trigger] owned[i];
        &&& n.tables.contains_key(o.phys)
        &&& n.tables.contains_key(o.parent)
        &&& n.link(o.parent, o.index as int) == Some(o.phys)
        &&& o.parent == n.root || is_level_one(n, o.parent)
    } by {
        let o = owned[i];
        if is_level_one(t, o.parent) {
            assert(is_level_one(n, o.parent));
        }
        assert(o.parent != table);
    }
}

/// The mask of a number of low bits.
fn low_mask(bits: u32) -> (out: u64)
    requires
        14 <= bits <= 52,
    ensures
        out == pow2(bits as nat) - 1,
        is_low_mask(out),
        0x3fff <= out < 0x10_0000_0000_0000,
        bits <= 47 ==> out < 0x8000_0000_0000,
        (out + 1) % 0x4000 == 0,
{
    proof {
        let n = bits as nat;
        vstd::arithmetic::power2::lemma2_to64();
        vstd::arithmetic::power2::lemma2_to64_rest();
        if n > 14 {
            vstd::arithmetic::power2::lemma_pow2_strictly_increases(14, n);
        }
        if n < 47 {
            vstd::arithmetic::power2::lemma_pow2_strictly_increases(n, 47);
        }
        if n < 52 {
            vstd::arithmetic::power2::lemma_pow2_strictly_increases(n, 52);
        }
        vstd::bits::lemma_u64_shl_is_mul(1, bits as u64);
        vstd::arithmetic::power2::lemma_pow2_adds(14, (n - 14) as nat);
        vstd::arithmetic::div_mod::lemma_mod_multiples_basic(pow2((n - 14) as nat) as int, 0x4000);
        assert(pow2(n) == pow2((n - 14) as nat) * 0x4000) by (nonlinear_arith)
            requires
                pow2(n) == pow2(14) * pow2((n - 14) as nat),
                pow2(14) == 0x4000,
        ;
        assert forall|x: u64| #[trigger] (x & ((pow2(n) - 1) as u64)) == x as int % (pow2(n) as int) by {
            vstd::bits::lemma_u64_low_bits_mask_is_mod(x, n);
        }
    }
    (1u64 << (bits as u64)) - 1
}

/// A root without entries is a tree without pages.
pub proof fn lemma_empty_root(t: Tree)
    requires
        t.tables.contains_key(t.root),
        t.tables[t.root] == tables::empty_table(),
        forall|x: u64| #[trigger] t.tables.contains_key(x) ==> t.tables[x].len() == ENTRIES,
    ensures
        t.wf(),
        forall|q: int| tables::in_tree(q) ==> (#[trigger] t.value(q)) == 0,
        forall|q: int| tables::in_tree(q) ==> !(#[trigger] t.blocked(q)),
{
    tables::lemma_zero_bits();
    assert forall|i: int| 0 <= i < ENTRIES implies #[trigger] t.l1(i) is None by {
        assert(t.tables[t.root][i] == 0);
    }
    assert forall|i: int, j: int| 0 <= i < ENTRIES && 0 <= j < ENTRIES implies #[trigger] t.leaf(
        i,
        j,
    ) is None by {
        assert(t.l1(i) is None);
    }
    assert forall|q: int| tables::in_tree(q) implies (#[trigger] t.value(q)) == 0 by {
        tables::lemma_positions(q);
        assert(t.leaf(tables::upper(q), tables::middle(q)) is None);
    }
    assert forall|q: int| tables::in_tree(q) implies !(#[trigger] t.blocked(q)) by {
        tables::lemma_positions(q);
        assert(t.l1(tables::upper(q)) is None);
    }
}

/// A low mask of at least fourteen bits keeps the two type bits.
proof fn lemma_low_three(mask: u64)
    requires
        is_low_mask(mask),
        0x3fff <= mask,
    ensures
        3 & mask == 3,
{
    vstd::arithmetic::div_mod::lemma_small_mod(3, (mask + 1) as nat);
    assert(3u64 & mask == 3int % (mask + 1));
}

/// A list that was extended lists what it listed before, and its last table.
proof fn lemma_last_listed(a: Seq<OwnedTable>, b: Seq<OwnedTable>)
    requires
        b.len() == a.len() + 1,
        b.take(a.len() as int) == a || b == a.push(b.last()),
    ensures
        listed(b, b.last().phys),
        forall|x: u64| #[trigger] listed(a, x) ==> listed(b, x),
{
    assert(b[b.len() - 1].phys == b.last().phys);
    assert forall|x: u64| #[trigger] listed(a, x) implies listed(b, x) by {
        let k = choose|k: int| 0 <= k < a.len() && (#[trigger] a[k]).phys == x;
        assert(b.take(a.len() as int)[k] == b[k] || b == a.push(b.last()));
        assert(b[k].phys == x);
    }
}

/// Taking a zeroed page leaves the others untouched.
proof fn lemma_free_taken(old_mem: TableMemory, mem: TableMemory, oas_mask: u64)
    requires
        old_mem.free_ok(oas_mask),
        old_mem.free@.len() > 0,
        mem.free@ == old_mem.free@.drop_last(),
        forall|x: u64| #[trigger]
            mem.map().contains_key(x) ==> old_mem.map().contains_key(x) || x == old_mem.free@.last(),
    ensures
        mem.free_ok(oas_mask),
{
    assert forall|k: int| 0 <= k < mem.free@.len() implies {
        &&& !mem.map().contains_key(#[trigger] mem.free@[k])
        &&& tables::frame_of(mem.free@[k], oas_mask) == mem.free@[k]
    } by {
        assert(mem.free@[k] == old_mem.free@[k]);
        assert(old_mem.free@[k] != old_mem.free@[old_mem.free@.len() - 1]);
    }
}

/// Adding a table keeps the list of added tables in step.
proof fn lemma_owned_grow(
    t: Tree,
    n: Tree,
    owned: Seq<OwnedTable>,
    parent: u64,
    index: usize,
    table: u64,
)
    requires
        t.wf(),
        owned_ok(t, owned),
        index < ENTRIES,
        t.tables.contains_key(parent),
        t.tables[parent][index as int] == 0,
        parent == t.root || is_level_one(t, parent),
        !t.tables.contains_key(table),
        tables::frame_of(table, t.oas_mask) == table,
        3 & t.oas_mask == 3,
        n == t.grow(parent, index as int, table),
        forall|i: int|
            0 <= i < ENTRIES && (#[trigger] t.l1(i)) is Some ==> n.l1(i) == t.l1(i),
    ensures
        owned_ok(n, owned.push(OwnedTable { phys: table, parent, index })),
{
    let o = OwnedTable { phys: table, parent, index };
    let next = owned.push(o);
    tables::lemma_zero_bits();
    tables::lemma_link_bits(table, t.oas_mask);
    assert forall|x: u64| is_level_one(t, x) implies #[trigger] is_level_one(n, x) by {
        let k = choose|k: int| 0 <= k < ENTRIES && #[trigger] t.l1(k) == Some(x);
        assert(n.l1(k) == Some(x));
    }
    assert forall|i: int| 0 <= i < next.len() implies {
        let o = #[trigger] next[i];
        &&& n.tables.contains_key(o.phys)
        &&& n.tables.contains_key(o.parent)
        &&& o.index < ENTRIES
        &&& o.phys != n.root
        &&& tables::frame_of(o.phys, n.oas_mask) == o.phys
        &&& n.link(o.parent, o.index as int) == Some(o.phys)
        &&& o.parent == n.root || is_level_one(n, o.parent)
    } by {
        if i < owned.len() {
            assert(next[i] == owned[i]);
            assert(t.tables.contains_key(owned[i].parent));
        }
    }
    assert forall|i: int, j: int| 0 <= i <= j < next.len() implies (#[trigger] next[i]).parent != (
    #[trigger] next[j]).phys by {
        if j < owned.len() {
            assert(next[i] == owned[i] && next[j] == owned[j]);
        } else if i < owned.len() {
            assert(next[i] == owned[i]);
            assert(t.tables.contains_key(owned[i].parent));
        }
    }
    assert forall|i: int, j: int| 0 <= i < j < next.len() implies (#[trigger] next[i]).phys != (
    #[trigger] next[j]).phys by {
        assert(next[i] == owned[i]);
        if j < owned.len() {
            assert(next[j] == owned[j]);
        } else {
            assert(t.tables.contains_key(owned[i].phys));
        }
    }
}

} // verus!
