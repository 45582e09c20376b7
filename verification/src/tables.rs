//! Page-table memory and its interpretation as a translation tree.
//!
//! A UAT table is one 16 KiB page of 2048 little-endian entries. The root table indexes level-one
//! tables, which index leaf tables, whose entries map 16 KiB pages. An entry of an upper level is a
//! link to a table when its two type bits are set, and is empty when it is zero.
use std::collections::HashMap;
use vstd::prelude::*;

verus! {

/// Entries of one table.
pub const ENTRIES: usize = 2048;

/// Number of pages that the three levels can tell apart.
pub const PAGES: u64 = 0x2_0000_0000;

/// Whether an entry has both type bits set: a table link in an upper level, a mapping in a leaf.
pub open spec fn is_valid(entry: u64) -> bool {
    entry & 3 == 3
}

/// The page address that an entry holds, as seen through an output address mask.
pub open spec fn frame_of(entry: u64, oas_mask: u64) -> u64 {
    entry & oas_mask & !0x3fffu64
}

/// A table without any entry.
pub open spec fn empty_table() -> Seq<u64> {
    Seq::new(ENTRIES as nat, |i: int| 0u64)
}

/// The entries of each table, by its physical address.
pub open spec fn contents(tables: Map<u64, Vec<u64>>) -> Map<u64, Seq<u64>> {
    tables.map_values(|entries: Vec<u64>| entries@)
}

/// The table pages that the driver can read and write, and zeroed pages it can turn into tables.
pub struct TableMemory {
    pub tables: HashMap<u64, Vec<u64>>,
    pub free: Vec<u64>,
}

impl TableMemory {
    /// The tables by physical address.
    pub open spec fn map(self) -> Map<u64, Seq<u64>> {
        contents(self.tables@)
    }

    /// Every table has all its entries.
    pub open spec fn wf(self) -> bool {
        forall|p: u64| #[trigger] self.map().contains_key(p) ==> self.map()[p].len() == ENTRIES
    }

    /// The zeroed pages are distinct, and none is a table.
    pub open spec fn free_ok(self, oas_mask: u64) -> bool {
        &&& forall|k: int|
            0 <= k < self.free@.len() ==> {
                &&& !self.map().contains_key(#[trigger] self.free@[k])
                &&& frame_of(self.free@[k], oas_mask) == self.free@[k]
            }
        &&& forall|j: int, k: int|
            0 <= j < k < self.free@.len() ==> #[trigger] self.free@[j] != #[trigger] self.free@[k]
    }

    /// Memory without tables or zeroed pages.
    pub fn new() -> (out: Self)
        ensures
            out.wf(),
            out.map() == Map::<u64, Seq<u64>>::empty(),
            out.free@.len() == 0,
    {
        broadcast use vstd::std_specs::hash::group_hash_axioms;

        let out = TableMemory { tables: HashMap::new(), free: Vec::new() };
        assert(out.map() =~= Map::<u64, Seq<u64>>::empty());
        out
    }

    /// Whether a page is a table.
    pub fn contains(&self, phys: u64) -> (out: bool)
        ensures
            out == self.map().contains_key(phys),
    {
        broadcast use vstd::std_specs::hash::group_hash_axioms;

        self.tables.contains_key(&phys)
    }

    /// Reads one entry.
    pub fn read(&self, phys: u64, index: usize) -> (out: u64)
        requires
            self.wf(),
            self.map().contains_key(phys),
            index < ENTRIES,
        ensures
            out == self.map()[phys][index as int],
    {
        broadcast use vstd::std_specs::hash::group_hash_axioms;

        match self.tables.get(&phys) {
            Some(entries) => {
                assert(self.map()[phys].len() == ENTRIES);
                entries[index]
            },
            None => 0,
        }
    }

    /// Writes one entry.
    pub fn write(&mut self, phys: u64, index: usize, value: u64)
        requires
            old(self).wf(),
            old(self).map().contains_key(phys),
            index < ENTRIES,
        ensures
            final(self).wf(),
            final(self).map() == old(self).map().insert(
                phys,
                old(self).map()[phys].update(index as int, value),
            ),
            final(self).free@ == old(self).free@,
    {
        broadcast use vstd::std_specs::hash::group_hash_axioms;

        let ghost before = self.map();
        if let Some(mut entries) = self.tables.remove(&phys) {
            assert(before[phys].len() == ENTRIES);
            entries[index] = value;
            self.tables.insert(phys, entries);
        }
        proof {
            assert(self.map() =~= before.insert(phys, before[phys].update(index as int, value)));
        }
    }

    /// Adds an empty table at a given page.
    pub fn add_table(&mut self, phys: u64)
        requires
            old(self).wf(),
        ensures
            final(self).wf(),
            final(self).map() == old(self).map().insert(phys, empty_table()),
            final(self).free@ == old(self).free@,
    {
        broadcast use vstd::std_specs::hash::group_hash_axioms;

        let ghost before = self.map();
        let entries: Vec<u64> = vec![0u64; ENTRIES];
        assert(entries@ =~= empty_table());
        self.tables.insert(phys, entries);
        assert(self.map() =~= before.insert(phys, empty_table()));
    }

    /// Turns the last zeroed page into a table.
    pub fn take_table(&mut self) -> (out: Option<u64>)
        requires
            old(self).wf(),
        ensures
            final(self).wf(),
            old(self).free@.len() == 0 ==> out is None && final(self).map() == old(self).map()
                && final(self).free@ == old(self).free@,
            old(self).free@.len() > 0 ==> {
                &&& out == Some(old(self).free@.last())
                &&& final(self).free@ == old(self).free@.drop_last()
                &&& final(self).map() == old(self).map().insert(
                    old(self).free@.last(),
                    empty_table(),
                )
            },
    {
        let page = self.free.pop();
        assert(self.map() == old(self).map());
        match page {
            None => None,
            Some(phys) => {
                self.add_table(phys);
                Some(phys)
            },
        }
    }

    /// Gives the page of a table back.
    pub fn release_table(&mut self, phys: u64)
        requires
            old(self).wf(),
        ensures
            final(self).wf(),
            final(self).map() == old(self).map().remove(phys),
            final(self).free@ == old(self).free@.push(phys),
    {
        broadcast use vstd::std_specs::hash::group_hash_axioms;

        let ghost before = self.map();
        self.tables.remove(&phys);
        self.free.push(phys);
        assert(self.map() =~= before.remove(phys));
    }
}

/// The translation tree below one root table.
pub struct Tree {
    pub tables: Map<u64, Seq<u64>>,
    pub root: u64,
    pub oas_mask: u64,
}

/// Position of a page in the root table.
pub open spec fn upper(page: int) -> int {
    page / 0x400000
}

/// Position of a page in its level-one table.
pub open spec fn middle(page: int) -> int {
    (page / 0x800) % 0x800
}

/// Position of a page in its leaf table.
pub open spec fn lower(page: int) -> int {
    page % 0x800
}

/// Whether a number is that of a page below the root.
pub open spec fn in_tree(page: int) -> bool {
    0 <= page < PAGES
}

impl Tree {
    /// The table that an upper-level entry links to.
    pub open spec fn link(self, table: u64, index: int) -> Option<u64> {
        if is_valid(self.tables[table][index]) {
            Some(frame_of(self.tables[table][index], self.oas_mask))
        } else {
            None
        }
    }

    /// The level-one table at a position of the root.
    pub open spec fn l1(self, i: int) -> Option<u64> {
        self.link(self.root, i)
    }

    /// The leaf table at a position of a level-one table.
    pub open spec fn leaf(self, i: int, j: int) -> Option<u64> {
        match self.l1(i) {
            Some(t) => self.link(t, j),
            None => None,
        }
    }

    /// The leaf table of a page.
    pub open spec fn leaf_of(self, page: int) -> Option<u64> {
        self.leaf(upper(page), middle(page))
    }

    /// The leaf entry of a page; zero where no leaf table exists.
    pub open spec fn value(self, page: int) -> u64 {
        match self.leaf_of(page) {
            Some(t) => self.tables[t][lower(page)],
            None => 0,
        }
    }

    /// Whether an upper-level entry is neither empty nor a link, so that no leaf table can be
    /// reached or added for the page.
    pub open spec fn blocked(self, page: int) -> bool {
        match self.l1(upper(page)) {
            Some(t) => self.link(t, middle(page)) is None && self.tables[t][middle(page)] != 0,
            None => self.tables[self.root][upper(page)] != 0,
        }
    }

    /// The tables form a tree: every link leads to a table, and no table is linked twice.
    pub open spec fn wf(self) -> bool {
        &&& self.tables.contains_key(self.root)
        &&& forall|t: u64| #[trigger] self.tables.contains_key(t) ==> self.tables[t].len() == ENTRIES
        &&& forall|i: int|
            0 <= i < ENTRIES ==> ((#[trigger] self.l1(i)) matches Some(t) ==> t != self.root
                && self.tables.contains_key(t))
        &&& forall|i: int, j: int|
            0 <= i < ENTRIES && 0 <= j < ENTRIES ==> ((#[trigger] self.leaf(i, j)) matches Some(t)
                ==> t != self.root && self.tables.contains_key(t))
        &&& forall|i: int, k: int|
            0 <= i < ENTRIES && 0 <= k < ENTRIES && i != k && (#[trigger] self.l1(i)) is Some ==> (
            #[trigger] self.l1(k)) != self.l1(i)
        &&& forall|i: int, j: int, k: int, l: int|
            0 <= i < ENTRIES && 0 <= j < ENTRIES && 0 <= k < ENTRIES && 0 <= l < ENTRIES && (i != k
                || j != l) && (#[trigger] self.leaf(i, j)) is Some ==> (#[trigger] self.leaf(k, l))
                != self.leaf(i, j)
        &&& forall|i: int, k: int, l: int|
            0 <= i < ENTRIES && 0 <= k < ENTRIES && 0 <= l < ENTRIES && (#[trigger] self.l1(i)) is Some
                ==> (#[trigger] self.leaf(k, l)) != self.l1(i)
    }

    /// Whether a table belongs to the tree.
    pub open spec fn holds(self, table: u64) -> bool {
        ||| table == self.root
        ||| exists|i: int| 0 <= i < ENTRIES && #[trigger] self.l1(i) == Some(table)
        ||| exists|i: int, j: int|
            0 <= i < ENTRIES && 0 <= j < ENTRIES && #[trigger] self.leaf(i, j) == Some(table)
    }

    /// The tree after one entry was written.
    pub open spec fn write(self, table: u64, index: int, value: u64) -> Tree {
        Tree {
            tables: self.tables.insert(table, self.tables[table].update(index, value)),
            ..self
        }
    }

    /// The tree after an empty table was added and linked.
    pub open spec fn grow(self, parent: u64, index: int, table: u64) -> Tree {
        Tree {
            tables: self.tables.insert(table, empty_table()).insert(
                parent,
                self.tables[parent].update(index, table | 3),
            ),
            ..self
        }
    }

    /// The tree after a table was unlinked and given back.
    pub open spec fn cut(self, parent: u64, index: int, table: u64) -> Tree {
        Tree {
            tables: self.tables.insert(parent, self.tables[parent].update(index, 0)).remove(table),
            ..self
        }
    }

    /// Same leaf entries.
    pub open spec fn same_values(self, other: Tree) -> bool {
        forall|q: int| in_tree(q) ==> #[trigger] self.value(q) == other.value(q)
    }

    /// Same pages blocked.
    pub open spec fn same_blocked(self, other: Tree) -> bool {
        forall|q: int| in_tree(q) ==> #[trigger] self.blocked(q) == other.blocked(q)
    }

    /// Same links at both upper levels.
    pub open spec fn same_links(self, other: Tree) -> bool {
        &&& forall|i: int| 0 <= i < ENTRIES ==> #[trigger] self.l1(i) == other.l1(i)
        &&& forall|i: int, j: int|
            0 <= i < ENTRIES && 0 <= j < ENTRIES ==> #[trigger] self.leaf(i, j) == other.leaf(i, j)
    }
}

/// The positions of a page lie inside their tables.
pub proof fn lemma_positions(page: int)
    requires
        in_tree(page),
    ensures
        0 <= upper(page) < ENTRIES,
        0 <= middle(page) < ENTRIES,
        0 <= lower(page) < ENTRIES,
{
}

/// Two pages with the same three positions are one page.
pub proof fn lemma_positions_unique(p: int, q: int)
    requires
        in_tree(p),
        in_tree(q),
        upper(p) == upper(q),
        middle(p) == middle(q),
        lower(p) == lower(q),
    ensures
        p == q,
{
    assert(p == 0x800 * (p / 0x800) + p % 0x800);
    assert(q == 0x800 * (q / 0x800) + q % 0x800);
    assert(p / 0x400000 == (p / 0x800) / 0x800);
    assert(q / 0x400000 == (q / 0x800) / 0x800);
}

/// A page address with the two type bits set is a link to that page.
pub proof fn lemma_link_bits(table: u64, oas_mask: u64)
    by (bit_vector)
    requires
        table & oas_mask & !0x3fffu64 == table,
        3 & oas_mask == 3,
    ensures
        (table | 3) & 3 == 3,
        (table | 3) & oas_mask & !0x3fffu64 == table,
        (table | 3) != 0,
{
}

/// Writing a leaf entry changes that page alone.
pub proof fn lemma_write_leaf(t: Tree, page: int, value: u64)
    requires
        t.wf(),
        in_tree(page),
        t.leaf_of(page) is Some,
    ensures
        ({
            let n = t.write(t.leaf_of(page)->0, lower(page), value);
            &&& n.wf()
            &&& n.same_links(t)
            &&& n.same_blocked(t)
            &&& forall|q: int|
                in_tree(q) ==> #[trigger] n.value(q) == if q == page {
                    value
                } else {
                    t.value(q)
                }
        }),
{
    let table = t.leaf_of(page)->0;
    let n = t.write(table, lower(page), value);
    lemma_positions(page);
    assert forall|i: int| 0 <= i < ENTRIES implies #[trigger] n.l1(i) == t.l1(i) by {
        assert(t.leaf(upper(page), middle(page)) == Some(table));
    }
    assert forall|i: int, j: int| 0 <= i < ENTRIES && 0 <= j < ENTRIES implies #[trigger] n.leaf(
        i,
        j,
    ) == t.leaf(i, j) by {
        assert(n.l1(i) == t.l1(i));
        assert(t.leaf(upper(page), middle(page)) == Some(table));
    }
    assert forall|q: int| in_tree(q) implies #[trigger] n.value(q) == if q == page {
        value
    } else {
        t.value(q)
    } by {
        lemma_positions(q);
        assert(n.leaf(upper(q), middle(q)) == t.leaf(upper(q), middle(q)));
        if q != page {
            if t.leaf_of(q) == Some(table) {
                assert(t.leaf(upper(page), middle(page)) == Some(table));
                assert(t.leaf(upper(q), middle(q)) == Some(table));
                assert(upper(q) == upper(page) && middle(q) == middle(page));
                if lower(q) == lower(page) {
                    lemma_positions_unique(page, q);
                }
            }
        }
    }
    assert forall|q: int| in_tree(q) implies #[trigger] n.blocked(q) == t.blocked(q) by {
        lemma_positions(q);
        assert(n.l1(upper(q)) == t.l1(upper(q)));
        assert(n.leaf(upper(q), middle(q)) == t.leaf(upper(q), middle(q)));
        assert(t.leaf(upper(page), middle(page)) == Some(table));
    }
}

/// Adding an empty level-one table changes no page.
pub proof fn lemma_grow_upper(t: Tree, i: int, table: u64)
    requires
        t.wf(),
        0 <= i < ENTRIES,
        t.tables[t.root][i] == 0,
        !t.tables.contains_key(table),
        frame_of(table, t.oas_mask) == table,
        3 & t.oas_mask == 3,
    ensures
        ({
            let n = t.grow(t.root, i, table);
            &&& n.wf()
            &&& n.same_values(t)
            &&& n.same_blocked(t)
            &&& n.l1(i) == Some(table)
            &&& forall|k: int| 0 <= k < ENTRIES && k != i ==> #[trigger] n.l1(k) == t.l1(k)
            &&& forall|k: int, l: int|
                0 <= k < ENTRIES && 0 <= l < ENTRIES ==> #[trigger] n.leaf(k, l) == t.leaf(k, l)
            &&& forall|l: int| 0 <= l < ENTRIES ==> #[trigger] n.tables[table][l] == 0
        }),
{
    let n = t.grow(t.root, i, table);
    lemma_link_bits(table, t.oas_mask);
    lemma_zero_bits();
    assert(t.l1(i) is None);
    assert forall|k: int| 0 <= k < ENTRIES && k != i implies #[trigger] n.l1(k) == t.l1(k) by {}
    assert(n.l1(i) == Some(table));
    assert forall|k: int, l: int| 0 <= k < ENTRIES && 0 <= l < ENTRIES implies #[trigger] n.leaf(
        k,
        l,
    ) == t.leaf(k, l) by {
        if k != i {
            assert(n.l1(k) == t.l1(k));
        }
    }
    assert forall|q: int| in_tree(q) implies #[trigger] n.value(q) == t.value(q) by {
        lemma_positions(q);
        assert(n.leaf(upper(q), middle(q)) == t.leaf(upper(q), middle(q)));
    }
    assert forall|q: int| in_tree(q) implies #[trigger] n.blocked(q) == t.blocked(q) by {
        lemma_positions(q);
        if upper(q) != i {
            assert(n.l1(upper(q)) == t.l1(upper(q)));
        }
    }
}

/// Zero has no type bit.
pub proof fn lemma_zero_bits()
    by (bit_vector)
    ensures
        0u64 & 3 == 0,
{
}

/// Adding an empty leaf table changes no page.
pub proof fn lemma_grow_leaf(t: Tree, i: int, j: int, table: u64)
    requires
        t.wf(),
        0 <= i < ENTRIES,
        0 <= j < ENTRIES,
        t.l1(i) is Some,
        t.tables[t.l1(i)->0][j] == 0,
        !t.tables.contains_key(table),
        frame_of(table, t.oas_mask) == table,
        3 & t.oas_mask == 3,
    ensures
        ({
            let n = t.grow(t.l1(i)->0, j, table);
            &&& n.wf()
            &&& n.same_values(t)
            &&& n.same_blocked(t)
            &&& n.leaf(i, j) == Some(table)
            &&& forall|k: int| 0 <= k < ENTRIES ==> #[trigger] n.l1(k) == t.l1(k)
            &&& forall|k: int, l: int|
                0 <= k < ENTRIES && 0 <= l < ENTRIES && (k != i || l != j) ==> #[trigger] n.leaf(
                    k,
                    l,
                ) == t.leaf(k, l)
        }),
{
    let parent = t.l1(i)->0;
    let n = t.grow(parent, j, table);
    lemma_link_bits(table, t.oas_mask);
    lemma_zero_bits();
    assert(t.leaf(i, j) is None);
    assert(parent != t.root);
    assert forall|k: int| 0 <= k < ENTRIES implies #[trigger] n.l1(k) == t.l1(k) by {}
    assert(n.l1(i) == t.l1(i));
    assert(n.leaf(i, j) == Some(table));
    assert forall|k: int, l: int|
        0 <= k < ENTRIES && 0 <= l < ENTRIES && (k != i || l != j) implies #[trigger] n.leaf(k, l)
        == t.leaf(k, l) by {
        assert(n.l1(k) == t.l1(k));
        if k != i {
            assert(t.l1(k) != t.l1(i));
        }
    }
    assert forall|q: int| in_tree(q) implies #[trigger] n.value(q) == t.value(q) by {
        lemma_positions(q);
        if upper(q) != i || middle(q) != j {
            assert(n.leaf(upper(q), middle(q)) == t.leaf(upper(q), middle(q)));
            assert(t.leaf(upper(q), middle(q)) != t.l1(i));
        }
    }
    assert forall|q: int| in_tree(q) implies #[trigger] n.blocked(q) == t.blocked(q) by {
        lemma_positions(q);
        assert(n.l1(upper(q)) == t.l1(upper(q)));
        if upper(q) != i {
            assert(t.l1(upper(q)) != t.l1(i));
        }
        if upper(q) != i || middle(q) != j {
            assert(n.leaf(upper(q), middle(q)) == t.leaf(upper(q), middle(q)));
        }
    }
}

/// Unlinking a level-one table clears the pages below it and no others.
pub proof fn lemma_cut_upper(t: Tree, i: int, table: u64)
    requires
        t.wf(),
        0 <= i < ENTRIES,
        t.l1(i) == Some(table),
    ensures
        ({
            let n = t.cut(t.root, i, table);
            &&& n.wf()
            &&& n.l1(i) is None
            &&& forall|k: int| 0 <= k < ENTRIES && k != i ==> #[trigger] n.l1(k) == t.l1(k)
            &&& forall|k: int, l: int|
                0 <= k < ENTRIES && 0 <= l < ENTRIES && k != i ==> #[trigger] n.leaf(k, l) == t.leaf(
                    k,
                    l,
                )
            &&& forall|q: int|
                in_tree(q) ==> #[trigger] n.value(q) == if upper(q) == i {
                    0
                } else {
                    t.value(q)
                }
            &&& forall|q: int| in_tree(q) && #[trigger] n.blocked(q) ==> t.blocked(q)
        }),
{
    let n = t.cut(t.root, i, table);
    lemma_zero_bits();
    assert(n.l1(i) is None);
    assert forall|k: int| 0 <= k < ENTRIES && k != i implies #[trigger] n.l1(k) == t.l1(k) by {
        assert(t.l1(k) != t.l1(i));
    }
    assert forall|k: int, l: int|
        0 <= k < ENTRIES && 0 <= l < ENTRIES && k != i implies #[trigger] n.leaf(k, l) == t.leaf(
        k,
        l,
    ) by {
        assert(n.l1(k) == t.l1(k));
        assert(t.l1(k) != t.l1(i));
    }
    assert forall|k: int, l: int| 0 <= k < ENTRIES && 0 <= l < ENTRIES implies (
    (#[trigger] n.leaf(k, l)) matches Some(x) ==> x != n.root && n.tables.contains_key(x)) by {
        if k != i {
            assert(n.leaf(k, l) == t.leaf(k, l));
            assert(t.leaf(k, l) != t.l1(i));
        }
    }
    assert forall|k: int| 0 <= k < ENTRIES implies ((#[trigger] n.l1(k)) matches Some(x) ==> x
        != n.root && n.tables.contains_key(x)) by {
        if k != i {
            assert(n.l1(k) == t.l1(k));
            assert(t.l1(k) is Some ==> t.l1(k) != t.l1(i));
        }
    }
    assert forall|q: int| in_tree(q) implies #[trigger] n.value(q) == if upper(q) == i {
        0
    } else {
        t.value(q)
    } by {
        lemma_positions(q);
        if upper(q) != i {
            assert(n.leaf(upper(q), middle(q)) == t.leaf(upper(q), middle(q)));
            assert(t.leaf(upper(q), middle(q)) != t.l1(i));
        }
    }
    assert forall|q: int| in_tree(q) && #[trigger] n.blocked(q) implies t.blocked(q) by {
        lemma_positions(q);
        if upper(q) != i {
            assert(n.l1(upper(q)) == t.l1(upper(q)));
            assert(t.l1(upper(q)) is Some ==> t.l1(upper(q)) != t.l1(i));
        }
    }
}

/// Unlinking a leaf table clears its pages and no others.
pub proof fn lemma_cut_leaf(t: Tree, i: int, j: int, table: u64)
    requires
        t.wf(),
        0 <= i < ENTRIES,
        0 <= j < ENTRIES,
        t.leaf(i, j) == Some(table),
    ensures
        ({
            let n = t.cut(t.l1(i)->0, j, table);
            &&& n.wf()
            &&& n.leaf(i, j) is None
            &&& forall|k: int| 0 <= k < ENTRIES ==> #[trigger] n.l1(k) == t.l1(k)
            &&& forall|k: int, l: int|
                0 <= k < ENTRIES && 0 <= l < ENTRIES && (k != i || l != j) ==> #[trigger] n.leaf(
                    k,
                    l,
                ) == t.leaf(k, l)
            &&& forall|q: int|
                in_tree(q) ==> #[trigger] n.value(q) == if upper(q) == i && middle(q) == j {
                    0
                } else {
                    t.value(q)
                }
            &&& forall|q: int| in_tree(q) && #[trigger] n.blocked(q) ==> t.blocked(q)
        }),
{
    let parent = t.l1(i)->0;
    let n = t.cut(parent, j, table);
    lemma_zero_bits();
    assert(t.l1(i) == Some(parent));
    assert forall|k: int| 0 <= k < ENTRIES implies #[trigger] n.l1(k) == t.l1(k) by {
        assert(t.leaf(i, j) == Some(table));
    }
    assert(n.l1(i) == t.l1(i));
    assert(n.leaf(i, j) is None);
    assert forall|k: int, l: int|
        0 <= k < ENTRIES && 0 <= l < ENTRIES && (k != i || l != j) implies #[trigger] n.leaf(k, l)
        == t.leaf(k, l) by {
        assert(n.l1(k) == t.l1(k));
        assert(t.l1(k) is Some ==> t.leaf(i, j) != t.l1(k));
        if k != i {
            assert(t.l1(k) != t.l1(i));
        }
    }
    assert forall|k: int, l: int| 0 <= k < ENTRIES && 0 <= l < ENTRIES implies (
    (#[trigger] n.leaf(k, l)) matches Some(x) ==> x != n.root && n.tables.contains_key(x)) by {
        if k != i || l != j {
            assert(n.leaf(k, l) == t.leaf(k, l));
            assert(t.leaf(k, l) is Some ==> t.leaf(k, l) != t.leaf(i, j));
        }
    }
    assert forall|k: int| 0 <= k < ENTRIES implies ((#[trigger] n.l1(k)) matches Some(x) ==> x
        != n.root && n.tables.contains_key(x)) by {
        assert(n.l1(k) == t.l1(k));
        assert(t.l1(k) is Some ==> t.leaf(i, j) != t.l1(k));
    }
    assert forall|q: int| in_tree(q) implies #[trigger] n.value(q) == if upper(q) == i && middle(q)
        == j {
        0
    } else {
        t.value(q)
    } by {
        lemma_positions(q);
        if upper(q) != i || middle(q) != j {
            assert(n.leaf(upper(q), middle(q)) == t.leaf(upper(q), middle(q)));
            assert(t.leaf(upper(q), middle(q)) is Some ==> t.leaf(upper(q), middle(q)) != t.leaf(
                i,
                j,
            ));
            assert(t.leaf(upper(q), middle(q)) != t.l1(i));
        }
    }
    assert forall|q: int| in_tree(q) && #[trigger] n.blocked(q) implies t.blocked(q) by {
        lemma_positions(q);
        let k = upper(q);
        assert(n.l1(k) == t.l1(k));
        assert(t.l1(k) is Some ==> t.leaf(i, j) != t.l1(k));
        if k != i {
            assert(t.l1(k) is Some ==> t.l1(k) != t.l1(i));
        }
    }
}

} // verus!
