//! What a walk over a range of pages does to a translation tree.
use crate::tables;
use crate::tables::{Tree, ENTRIES};
use vstd::prelude::*;

verus! {

/// Bits of an entry that hold its access rights.
pub const UAT_PROT_BITS: u64 = 0xfff0_0000_0000_00dc;

/// What a walk writes into the leaf entry of each page it visits.
#[derive(Clone, Copy, Debug, PartialEq, Eq, Structural)]
pub enum Edit {
    /// Leave the entry as it is.
    Keep,
    /// Map consecutive pages, or the same page over and over.
    Install { phys: u64, bits: u64, one_page: bool },
    /// Replace the access rights of a mapping.
    Protect { bits: u64 },
    /// Remove the mapping.
    Clear,
    /// Put a given entry in place.
    Store { value: u64 },
}

/// The entry that the `k`-th visited page has after an edit.
pub open spec fn edited(edit: Edit, k: nat, old_entry: u64) -> u64 {
    match edit {
        Edit::Keep => old_entry,
        Edit::Install { phys, bits, one_page } => if one_page {
            phys | bits
        } else {
            ((phys + k * 0x4000) as u64) | bits
        },
        Edit::Protect { bits } => if tables::is_valid(old_entry) {
            (old_entry & !UAT_PROT_BITS) | bits
        } else {
            old_entry
        },
        Edit::Clear => 0,
        Edit::Store { value } => value,
    }
}

/// Whether the addresses that an edit writes stay representable for `n` pages.
pub open spec fn representable(edit: Edit, n: nat) -> bool {
    match edit {
        Edit::Install { phys, bits, one_page } => one_page || phys + n * 0x4000 <= u64::MAX,
        _ => true,
    }
}

/// The entry that the `k`-th visited page has after an edit.
pub fn apply(edit: &Edit, k: u64, old_entry: u64) -> (out: u64)
    requires
        representable(*edit, k as nat),
    ensures
        out == edited(*edit, k as nat, old_entry),
{
    match *edit {
        Edit::Keep => old_entry,
        Edit::Install { phys, bits, one_page } => {
            if one_page {
                phys | bits
            } else {
                (phys + k * 0x4000) | bits
            }
        },
        Edit::Protect { bits } => {
            if old_entry & 3 == 3 {
                (old_entry & !UAT_PROT_BITS) | bits
            } else {
                old_entry
            }
        },
        Edit::Clear => 0,
        Edit::Store { value } => value,
    }
}

/// Whether a walk reaches the leaf entry of a page. A walk that may add tables is stopped only by a
/// foreign upper-level entry; any other walk needs the leaf table to exist.
pub open spec fn visited(t: Tree, alloc: bool, page: int) -> bool {
    if alloc {
        !t.blocked(page)
    } else {
        t.leaf_of(page) is Some
    }
}

/// Number of pages of a range that a walk visits.
pub open spec fn visits(t: Tree, alloc: bool, lo: int, hi: int) -> nat
    decreases hi - lo,
{
    if hi <= lo {
        0
    } else {
        visits(t, alloc, lo, hi - 1) + if visited(t, alloc, hi - 1) {
            1nat
        } else {
            0
        }
    }
}

/// Number of tables that a walk from `lo` has to add when it comes to a page.
pub open spec fn need(t: Tree, lo: int, page: int) -> nat {
    if t.blocked(page) {
        0
    } else {
        (if t.l1(tables::upper(page)) is None && (page == lo || page % 0x400000 == 0) {
            1nat
        } else {
            0
        }) + (if t.leaf_of(page) is None && (page == lo || page % 0x800 == 0) {
            1nat
        } else {
            0
        })
    }
}

/// Number of tables that a walk over a range has to add.
pub open spec fn needed(t: Tree, lo: int, hi: int) -> nat
    decreases hi - lo,
{
    if hi <= lo {
        0
    } else {
        needed(t, lo, hi - 1) + need(t, lo, hi - 1)
    }
}

/// A walk adds at most two tables for each page.
pub proof fn lemma_needed_bound(t: Tree, lo: int, hi: int)
    requires
        lo <= hi,
    ensures
        needed(t, lo, hi) <= 2 * (hi - lo),
    decreases hi - lo,
{
    if lo < hi {
        lemma_needed_bound(t, lo, hi - 1);
    }
}

/// The entries after a walk has gone over `lo..hi`: visited pages are edited in order, all others
/// keep their entries.
pub open spec fn outcome(t0: Tree, t: Tree, alloc: bool, edit: Edit, lo: int, hi: int) -> bool {
    &&& t.same_blocked(t0)
    &&& forall|q: int|
        tables::in_tree(q) ==> #[trigger] t.value(q) == if lo <= q < hi && visited(t0, alloc, q) {
            edited(edit, visits(t0, alloc, lo, q), t0.value(q))
        } else {
            t0.value(q)
        }
}

/// The links after a walk that started at `lo` has come to `page`: those that existed are kept, and
/// those that lie ahead are untouched.
pub open spec fn links_kept(t0: Tree, t: Tree, alloc: bool, lo: int, page: int) -> bool {
    &&& forall|i: int|
        0 <= i < ENTRIES && (#[trigger] t.l1(i) != t0.l1(i)) ==> alloc && t0.l1(i) is None && i
            * 0x400000 < page && page != lo
    &&& forall|i: int, j: int|
        0 <= i < ENTRIES && 0 <= j < ENTRIES && (#[trigger] t.leaf(i, j) != t0.leaf(i, j)) ==> alloc
            && t0.leaf(i, j) is None && (i * 0x800 + j) * 0x800 < page && page != lo
    &&& alloc && page != lo && page % 0x400000 != 0 ==> t.l1(tables::upper(page)) is Some
}

/// Every link of a tree is kept.
pub open spec fn extends(t0: Tree, t: Tree) -> bool {
    &&& forall|i: int|
        0 <= i < ENTRIES && (#[trigger] t0.l1(i)) is Some ==> t.l1(i) == t0.l1(i)
    &&& forall|i: int, j: int|
        0 <= i < ENTRIES && 0 <= j < ENTRIES && (#[trigger] t0.leaf(i, j)) is Some ==> t.leaf(i, j)
            == t0.leaf(i, j)
}

/// Tables outside the tree are untouched, and every added table belongs to the tree.
pub open spec fn framed(t0: Tree, t: Tree) -> bool {
    &&& t.root == t0.root
    &&& t.oas_mask == t0.oas_mask
    &&& forall|x: u64| #[trigger]
        t0.tables.contains_key(x) ==> {
            &&& t.tables.contains_key(x)
            &&& t.holds(x) ==> t0.holds(x)
            &&& !t0.holds(x) ==> t.tables[x] == t0.tables[x]
        }
    &&& forall|x: u64| #[trigger]
        t.tables.contains_key(x) ==> t0.tables.contains_key(x) || t.holds(x)
}

/// Every table that was added or changed is recorded, apart from one.
pub open spec fn recorded_except(t0: Tree, t: Tree, walked: Seq<u64>, except: Option<u64>) -> bool {
    forall|x: u64| #[trigger]
        t.tables.contains_key(x) && (!t0.tables.contains_key(x) || t.tables[x] != t0.tables[x])
            ==> walked.contains(x) || except == Some(x)
}

/// Every table that was added or changed is recorded.
pub open spec fn recorded(t0: Tree, t: Tree, walked: Seq<u64>) -> bool {
    recorded_except(t0, t, walked, None)
}

/// Recording more tables loses none.
pub proof fn lemma_recorded_more(t0: Tree, t: Tree, a: Seq<u64>, b: Seq<u64>, except: Option<u64>)
    requires
        recorded_except(t0, t, a, except),
        forall|x: u64| #[trigger] a.contains(x) ==> b.contains(x),
        except is Some ==> b.contains(except->0),
    ensures
        recorded(t0, t, b),
{
}

/// Going over one more page that is not visited and needs no table.
pub proof fn lemma_skip(t0: Tree, alloc: bool, lo: int, from: int, to: int)
    requires
        lo <= from <= to,
        forall|q: int| from <= q < to ==> !(#[trigger] visited(t0, alloc, q)),
        alloc ==> forall|q: int| from <= q < to ==> #[trigger] need(t0, lo, q) == 0,
    ensures
        visits(t0, alloc, lo, to) == visits(t0, alloc, lo, from),
        alloc ==> needed(t0, lo, to) == needed(t0, lo, from),
    decreases to - from,
{
    if from < to {
        lemma_skip(t0, alloc, lo, from, to - 1);
        assert(!visited(t0, alloc, to - 1));
        assert(alloc ==> need(t0, lo, to - 1) == 0);
    }
}

/// The number of tables needed grows with the range.
pub proof fn lemma_needed_monotone(t: Tree, lo: int, a: int, b: int)
    requires
        a <= b,
    ensures
        needed(t, lo, a) <= needed(t, lo, b),
    decreases b - a,
{
    if a < b && lo < b {
        lemma_needed_monotone(t, lo, a, b - 1);
    }
}

/// The number of visited pages grows with the range, and never faster than the range.
pub proof fn lemma_visits_monotone(t: Tree, alloc: bool, lo: int, a: int, b: int)
    requires
        lo <= a <= b,
    ensures
        visits(t, alloc, lo, a) <= visits(t, alloc, lo, b) <= visits(t, alloc, lo, a) + (b - a),
    decreases b - a,
{
    if a < b {
        lemma_visits_monotone(t, alloc, lo, a, b - 1);
    }
}

/// Where nothing stops the walk, pages are visited one after the other.
pub proof fn lemma_visits_all(t: Tree, alloc: bool, lo: int, hi: int)
    requires
        lo <= hi,
        forall|q: int| lo <= q < hi ==> #[trigger] visited(t, alloc, q),
    ensures
        visits(t, alloc, lo, hi) == hi - lo,
    decreases hi - lo,
{
    if lo < hi {
        lemma_visits_all(t, alloc, lo, hi - 1);
        assert(visited(t, alloc, hi - 1));
    }
}

/// A tree extends itself.
pub proof fn lemma_framed_refl(t: Tree)
    ensures
        framed(t, t),
        recorded(t, t, Seq::empty()),
{
}

/// Writing a leaf entry stays inside the tree.
pub proof fn lemma_framed_write(t0: Tree, t: Tree, page: int, value: u64, walked: Seq<u64>)
    requires
        t.wf(),
        tables::in_tree(page),
        t.leaf_of(page) is Some,
        framed(t0, t),
        recorded(t0, t, walked),
        walked.contains(t.leaf_of(page)->0),
    ensures
        framed(t0, t.write(t.leaf_of(page)->0, tables::lower(page), value)),
        recorded(t0, t.write(t.leaf_of(page)->0, tables::lower(page), value), walked),
{
    let table = t.leaf_of(page)->0;
    let n = t.write(table, tables::lower(page), value);
    tables::lemma_positions(page);
    tables::lemma_write_leaf(t, page, value);
    assert(t.leaf(tables::upper(page), tables::middle(page)) == Some(table));
    assert(t.holds(table));
    assert forall|x: u64| n.holds(x) == t.holds(x) by {
        lemma_holds_by_links(n, t, x);
        lemma_holds_by_links(t, n, x);
    }
    assert forall|x: u64| #[trigger] t0.tables.contains_key(x) implies {
        &&& n.tables.contains_key(x)
        &&& n.holds(x) ==> t0.holds(x)
        &&& !t0.holds(x) ==> n.tables[x] == t0.tables[x]
    } by {
        assert(t.tables.contains_key(x));
        assert(n.holds(x) == t.holds(x));
    }
    assert forall|x: u64| #[trigger] n.tables.contains_key(x) implies t0.tables.contains_key(x)
        || n.holds(x) by {
        assert(t.tables.contains_key(x));
        assert(n.holds(x) == t.holds(x));
    }
    assert forall|x: u64| #[trigger]
        n.tables.contains_key(x) && (!t0.tables.contains_key(x) || n.tables[x]
            != t0.tables[x]) implies walked.contains(x) by {
        assert(t.tables.contains_key(x));
    }
}

/// What a tree holds is read off its links.
pub proof fn lemma_holds_by_links(n: Tree, t: Tree, x: u64)
    requires
        n.root == t.root,
        n.same_links(t),
    ensures
        n.holds(x) ==> t.holds(x),
{
    if n.holds(x) && x != n.root {
        if exists|i: int| 0 <= i < ENTRIES && #[trigger] n.l1(i) == Some(x) {
            let i = choose|i: int| 0 <= i < ENTRIES && #[trigger] n.l1(i) == Some(x);
            assert(t.l1(i) == Some(x));
        } else {
            let (i, j) = choose|i: int, j: int|
                0 <= i < ENTRIES && 0 <= j < ENTRIES && #[trigger] n.leaf(i, j) == Some(x);
            assert(t.leaf(i, j) == Some(x));
        }
    }
}

/// Adding a linked table stays inside the tree.
pub proof fn lemma_framed_grow(
    t0: Tree,
    t: Tree,
    n: Tree,
    parent: u64,
    index: int,
    table: u64,
    walked: Seq<u64>,
)
    requires
        framed(t0, t),
        recorded(t0, t, walked),
        walked.contains(parent),
        t.holds(parent),
        t.tables.contains_key(parent),
        !t.tables.contains_key(table),
        n == t.grow(parent, index, table),
        n.holds(table),
        forall|i: int|
            0 <= i < ENTRIES && (#[trigger] n.l1(i)) != Some(table) ==> n.l1(i) == t.l1(i),
        forall|i: int, j: int|
            0 <= i < ENTRIES && 0 <= j < ENTRIES && (#[trigger] n.leaf(i, j)) != Some(table)
                ==> n.leaf(i, j) == t.leaf(i, j),
        forall|i: int|
            0 <= i < ENTRIES && (#[trigger] t.l1(i)) is Some ==> n.l1(i) == t.l1(i),
        forall|i: int, j: int|
            0 <= i < ENTRIES && 0 <= j < ENTRIES && (#[trigger] t.leaf(i, j)) is Some ==> n.leaf(i, j)
                == t.leaf(i, j),
    ensures
        framed(t0, n),
        recorded_except(t0, n, walked, Some(table)),
{
    assert forall|x: u64| n.holds(x) && x != table implies #[trigger] t.holds(x) by {
        if x != n.root {
            if exists|i: int| 0 <= i < ENTRIES && #[trigger] n.l1(i) == Some(x) {
                let i = choose|i: int| 0 <= i < ENTRIES && #[trigger] n.l1(i) == Some(x);
                assert(t.l1(i) == Some(x));
            } else {
                let (i, j) = choose|i: int, j: int|
                    0 <= i < ENTRIES && 0 <= j < ENTRIES && #[trigger] n.leaf(i, j) == Some(x);
                assert(t.leaf(i, j) == Some(x));
            }
        }
    }
    assert forall|x: u64| t.holds(x) implies #[trigger] n.holds(x) by {
        if x != t.root {
            if exists|i: int| 0 <= i < ENTRIES && #[trigger] t.l1(i) == Some(x) {
                let i = choose|i: int| 0 <= i < ENTRIES && #[trigger] t.l1(i) == Some(x);
                assert(n.l1(i) == Some(x));
            } else {
                let (i, j) = choose|i: int, j: int|
                    0 <= i < ENTRIES && 0 <= j < ENTRIES && #[trigger] t.leaf(i, j) == Some(x);
                assert(n.leaf(i, j) == Some(x));
            }
        }
    }
    assert forall|x: u64| #[trigger] t0.tables.contains_key(x) implies {
        &&& n.tables.contains_key(x)
        &&& n.holds(x) ==> t0.holds(x)
        &&& !t0.holds(x) ==> n.tables[x] == t0.tables[x]
    } by {
        assert(t.tables.contains_key(x));
        assert(x != table);
        if n.holds(x) {
            assert(t.holds(x));
        }
        if x == parent {
            assert(t0.holds(x));
        }
    }
    assert forall|x: u64| #[trigger] n.tables.contains_key(x) implies t0.tables.contains_key(x)
        || n.holds(x) by {
        if x != table {
            assert(t.tables.contains_key(x));
        }
    }
    assert forall|x: u64| #[trigger]
        n.tables.contains_key(x) && (!t0.tables.contains_key(x) || n.tables[x]
            != t0.tables[x]) implies walked.contains(x) || Some(table) == Some(x) by {
        if x != table {
            assert(t.tables.contains_key(x));
        }
    }
}

/// The tables that a walk has to add at the page it has come to are those missing there now.
pub proof fn lemma_need_at(t0: Tree, t: Tree, lo: int, page: int)
    requires
        links_kept(t0, t, true, lo, page),
        tables::in_tree(page),
        page == lo || page % 0x800 == 0,
        !t0.blocked(page),
    ensures
        need(t0, lo, page) == (if t.l1(tables::upper(page)) is None {
            1nat
        } else {
            0
        }) + (if t.leaf_of(page) is None {
            1nat
        } else {
            0
        }),
{
    let i = tables::upper(page);
    let j = tables::middle(page);
    tables::lemma_positions(page);
    assert(page / 0x400000 == (page / 0x800) / 0x800);
    assert(i * 0x800 + j == page / 0x800);
    if t.l1(i) != t0.l1(i) {
        assert(i * 0x400000 < page && page != lo);
        assert(page % 0x400000 != 0);
    }
    if t.leaf(i, j) != t0.leaf(i, j) {
        assert((i * 0x800 + j) * 0x800 < page && page != lo);
    }
}

/// Inside one leaf table only the first page can need tables.
pub proof fn lemma_needed_block(t0: Tree, lo: int, page: int, stop: int)
    requires
        lo <= page < stop <= (page / 0x800 + 1) * 0x800,
    ensures
        needed(t0, lo, stop) == needed(t0, lo, page) + need(t0, lo, page),
    decreases stop - page,
{
    if page + 1 < stop {
        lemma_needed_block(t0, lo, page, stop - 1);
        let q = stop - 1;
        assert(q / 0x800 == page / 0x800);
        assert(q % 0x800 != 0);
        assert(q % 0x400000 != 0) by {
            assert(q % 0x400000 == 0 ==> q % 0x800 == 0);
        }
        assert(need(t0, lo, q) == 0);
    }
}

/// Pages behind a missing level-one table are passed over together.
pub proof fn lemma_skip_upper(
    t0: Tree,
    t: Tree,
    alloc: bool,
    edit: Edit,
    lo: int,
    page: int,
    stop: int,
)
    requires
        0 <= lo <= page < stop <= (page / 0x400000 + 1) * 0x400000,
        stop <= tables::PAGES,
        outcome(t0, t, alloc, edit, lo, page),
        links_kept(t0, t, alloc, lo, page),
        t.l1(tables::upper(page)) is None,
        alloc ==> t.tables[t.root][tables::upper(page)] != 0,
    ensures
        outcome(t0, t, alloc, edit, lo, stop),
        visits(t0, alloc, lo, stop) == visits(t0, alloc, lo, page),
        alloc ==> needed(t0, lo, stop) == needed(t0, lo, page),
        links_kept(t0, t, alloc, lo, (page / 0x400000 + 1) * 0x400000),
{
    assert forall|q: int| page <= q < stop implies !(#[trigger] visited(t0, alloc, q)) && (alloc
        ==> need(t0, lo, q) == 0) by {
        tables::lemma_positions(q);
        assert(tables::upper(q) == tables::upper(page));
        assert(t.blocked(q) == t0.blocked(q));
        assert(t.leaf(tables::upper(q), tables::middle(q)) is None);
    }
    assert(alloc ==> forall|q: int| page <= q < stop ==> #[trigger] need(t0, lo, q) == 0) by {
        if alloc {
            assert forall|q: int| page <= q < stop implies #[trigger] need(t0, lo, q) == 0 by {
                assert(!visited(t0, alloc, q));
            }
        }
    }
    lemma_skip(t0, alloc, lo, page, stop);
    assert forall|q: int| tables::in_tree(q) implies #[trigger] t.value(q) == if lo <= q < stop
        && visited(t0, alloc, q) {
        edited(edit, visits(t0, alloc, lo, q), t0.value(q))
    } else {
        t0.value(q)
    } by {
        if page <= q < stop {
            assert(!visited(t0, alloc, q));
        }
    }
    lemma_links_later(t0, t, alloc, lo, page, (page / 0x400000 + 1) * 0x400000);
}

/// Pages behind a missing leaf table are passed over together.
pub proof fn lemma_skip_leaf(
    t0: Tree,
    t: Tree,
    alloc: bool,
    edit: Edit,
    lo: int,
    page: int,
    stop: int,
)
    requires
        0 <= lo <= page < stop <= (page / 0x800 + 1) * 0x800,
        stop <= tables::PAGES,
        outcome(t0, t, alloc, edit, lo, page),
        links_kept(t0, t, alloc, lo, page),
        t.l1(tables::upper(page)) is Some,
        t.leaf_of(page) is None,
        alloc ==> t.blocked(page),
    ensures
        outcome(t0, t, alloc, edit, lo, stop),
        visits(t0, alloc, lo, stop) == visits(t0, alloc, lo, page),
        alloc ==> needed(t0, lo, stop) == needed(t0, lo, page),
        links_kept(t0, t, alloc, lo, (page / 0x800 + 1) * 0x800),
{
    assert(page / 0x400000 == (page / 0x800) / 0x800);
    assert forall|q: int| page <= q < stop implies !(#[trigger] visited(t0, alloc, q)) && (alloc
        ==> need(t0, lo, q) == 0) by {
        tables::lemma_positions(q);
        assert(q / 0x800 == page / 0x800);
        assert(q / 0x400000 == (q / 0x800) / 0x800);
        assert(tables::upper(q) == tables::upper(page));
        assert(tables::middle(q) == tables::middle(page));
        assert(t.blocked(q) == t0.blocked(q));
        assert(t.leaf(tables::upper(q), tables::middle(q)) is None);
    }
    assert(alloc ==> forall|q: int| page <= q < stop ==> #[trigger] need(t0, lo, q) == 0) by {
        if alloc {
            assert forall|q: int| page <= q < stop implies #[trigger] need(t0, lo, q) == 0 by {
                assert(!visited(t0, alloc, q));
            }
        }
    }
    lemma_skip(t0, alloc, lo, page, stop);
    assert forall|q: int| tables::in_tree(q) implies #[trigger] t.value(q) == if lo <= q < stop
        && visited(t0, alloc, q) {
        edited(edit, visits(t0, alloc, lo, q), t0.value(q))
    } else {
        t0.value(q)
    } by {
        if page <= q < stop {
            assert(!visited(t0, alloc, q));
        }
    }
    lemma_links_later(t0, t, alloc, lo, page, (page / 0x800 + 1) * 0x800);
}

/// Links that a walk has kept up to a page are kept up to a later one.
pub proof fn lemma_links_later(t0: Tree, t: Tree, alloc: bool, lo: int, page: int, next: int)
    requires
        0 <= lo <= page < next,
        links_kept(t0, t, alloc, lo, page),
        next == (page / 0x400000 + 1) * 0x400000 || (next == (page / 0x800 + 1) * 0x800 && t.l1(
            tables::upper(page),
        ) is Some),
    ensures
        links_kept(t0, t, alloc, lo, next),
{
    if next == (page / 0x800 + 1) * 0x800 && next % 0x400000 != 0 {
        assert(page / 0x400000 == (page / 0x800) / 0x800);
        assert(next / 0x400000 == (next / 0x800) / 0x800);
        assert(next / 0x800 == page / 0x800 + 1);
        assert(next / 0x400000 == page / 0x400000);
    }
}

/// The links after a walk has added what was missing for one page.
pub proof fn lemma_links_grown(t0: Tree, t: Tree, n: Tree, alloc: bool, lo: int, page: int)
    requires
        0 <= lo <= page,
        tables::in_tree(page),
        links_kept(t0, t, alloc, lo, page),
        forall|k: int|
            0 <= k < ENTRIES && k != tables::upper(page) ==> #[trigger] n.l1(k) == t.l1(k),
        forall|k: int, l: int|
            0 <= k < ENTRIES && 0 <= l < ENTRIES && (k != tables::upper(page) || l
                != tables::middle(page)) ==> #[trigger] n.leaf(k, l) == t.leaf(k, l),
        n.leaf_of(page) is Some,
        t.l1(tables::upper(page)) is Some ==> n.l1(tables::upper(page)) == t.l1(
            tables::upper(page),
        ),
        t.leaf_of(page) is Some ==> n.leaf_of(page) == t.leaf_of(page),
        !alloc ==> t.leaf_of(page) is Some,
    ensures
        links_kept(t0, n, alloc, lo, (page / 0x800 + 1) * 0x800),
{
    let next = (page / 0x800 + 1) * 0x800;
    let i = tables::upper(page);
    let j = tables::middle(page);
    tables::lemma_positions(page);
    assert(page / 0x400000 == (page / 0x800) / 0x800);
    assert(i * 0x800 + j == page / 0x800);
    assert forall|k: int| 0 <= k < ENTRIES && (#[trigger] n.l1(k) != t0.l1(k)) implies alloc
        && t0.l1(k) is None && k * 0x400000 < next && next != lo by {
        if k != i {
            assert(n.l1(k) == t.l1(k));
        } else if t.l1(k) is Some {
            assert(n.l1(k) == t.l1(k));
        } else {
            assert(t.l1(k) != t0.l1(k) ==> t0.l1(k) is None);
        }
    }
    assert forall|k: int, l: int|
        0 <= k < ENTRIES && 0 <= l < ENTRIES && (#[trigger] n.leaf(k, l) != t0.leaf(
            k,
            l,
        )) implies alloc && t0.leaf(k, l) is None && (k * 0x800 + l) * 0x800 < next && next
        != lo by {
        if k != i || l != j {
            assert(n.leaf(k, l) == t.leaf(k, l));
        } else if t.leaf(k, l) is Some {
            assert(n.leaf(k, l) == t.leaf(k, l));
        } else {
            assert(t.leaf(k, l) != t0.leaf(k, l) ==> t0.leaf(k, l) is None);
        }
    }
    if next % 0x400000 != 0 {
        assert(next / 0x400000 == (next / 0x800) / 0x800);
        assert(next / 0x800 == page / 0x800 + 1);
        assert(next / 0x400000 == page / 0x400000);
    }
}

/// All pages of one leaf table are visited once the table exists.
pub proof fn lemma_block_visited(t0: Tree, t: Tree, alloc: bool, page: int, stop: int)
    requires
        0 <= page < stop <= (page / 0x800 + 1) * 0x800,
        stop <= tables::PAGES,
        t.leaf_of(page) is Some,
        t.same_blocked(t0),
        !alloc ==> t0.leaf_of(page) is Some,
    ensures
        forall|q: int| page <= q < stop ==> #[trigger] visited(t0, alloc, q),
{
    assert forall|q: int| page <= q < stop implies #[trigger] visited(t0, alloc, q) by {
        assert(q / 0x800 == page / 0x800);
        assert(q / 0x400000 == (q / 0x800) / 0x800);
        assert(page / 0x400000 == (page / 0x800) / 0x800);
        assert(t.blocked(q) == t0.blocked(q));
        assert(t.leaf_of(q) == t.leaf_of(page));
        assert(t0.leaf_of(q) == t0.leaf_of(page));
    }
}

/// Staying inside a tree twice is staying inside it.
pub proof fn lemma_framed_trans(a: Tree, b: Tree, c: Tree)
    requires
        framed(a, b),
        framed(b, c),
        extends(b, c),
    ensures
        framed(a, c),
{
    assert forall|x: u64| #[trigger] a.tables.contains_key(x) implies {
        &&& c.tables.contains_key(x)
        &&& c.holds(x) ==> a.holds(x)
        &&& !a.holds(x) ==> c.tables[x] == a.tables[x]
    } by {
        assert(b.tables.contains_key(x));
    }
    assert forall|x: u64| #[trigger] c.tables.contains_key(x) implies a.tables.contains_key(x)
        || c.holds(x) by {
        if b.tables.contains_key(x) && !a.tables.contains_key(x) {
            assert(b.holds(x));
            if x != b.root {
                if exists|i: int| 0 <= i < ENTRIES && #[trigger] b.l1(i) == Some(x) {
                    let i = choose|i: int| 0 <= i < ENTRIES && #[trigger] b.l1(i) == Some(x);
                    assert(c.l1(i) == Some(x));
                } else {
                    let (i, j) = choose|i: int, j: int|
                        0 <= i < ENTRIES && 0 <= j < ENTRIES && #[trigger] b.leaf(i, j) == Some(x);
                    assert(c.leaf(i, j) == Some(x));
                }
            }
        }
    }
}

/// Links that are kept twice are kept.
pub proof fn lemma_extends_trans(a: Tree, b: Tree, c: Tree)
    requires
        extends(a, b),
        extends(b, c),
    ensures
        extends(a, c),
{
    assert forall|i: int| 0 <= i < ENTRIES && (#[trigger] a.l1(i)) is Some implies c.l1(i) == a.l1(
        i,
    ) by {
        assert(b.l1(i) == a.l1(i));
    }
    assert forall|i: int, j: int|
        0 <= i < ENTRIES && 0 <= j < ENTRIES && (#[trigger] a.leaf(i, j)) is Some implies c.leaf(i, j)
        == a.leaf(i, j) by {
        assert(b.leaf(i, j) == a.leaf(i, j));
    }
}

} // verus!
