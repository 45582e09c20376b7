//! What page-table operations promise together.
use crate::error::Error;
use crate::pgtable::UatPageTable;
use crate::prot;
use crate::prot::Prot;
use crate::tables;
use crate::tables::{TableMemory, Tree, ENTRIES};
use crate::walk;
use crate::walk::Edit;
use core::ops::Range;
use vstd::prelude::*;

verus! {

/// Whether an aligned range does not cross the top of the address space.
pub open spec fn straight(table: UatPageTable, range: Range<u64>) -> bool {
    &&& range.start % 0x4000 == 0
    &&& range.end % 0x4000 == 0
    &&& range.start < range.end
    &&& range.start as int / (table.ias_mask + 1) == (range.end - 1) / (table.ias_mask + 1)
}

/// The page of an address inside a straight range is found by its distance from the start.
pub proof fn lemma_page_in_range(table: UatPageTable, range: Range<u64>, iova: u64)
    requires
        table.geometry_ok(),
        straight(table, range),
        range.start <= iova < range.end,
    ensures
        table.first_page(iova) == table.first_page(range.start) + (iova - range.start) / 0x4000,
        table.first_page(range.start) <= table.first_page(iova) < table.end_page(range.end),
        tables::in_tree(table.first_page(iova)),
{
    let size = table.ias_mask + 1;
    let start = range.start as int;
    let last = range.end - 1;
    table.lemma_range_pages(range.start, range.end);
    vstd::arithmetic::div_mod::lemma_fundamental_div_mod(start, size);
    vstd::arithmetic::div_mod::lemma_fundamental_div_mod(last, size);
    vstd::arithmetic::div_mod::lemma_mod_bound(start, size);
    vstd::arithmetic::div_mod::lemma_mod_bound(last, size);
    let k = size / 0x4000;
    assert(size == 0x4000 * k);
    vstd::arithmetic::div_mod::lemma_mod_mod(start, 0x4000, k);
    let q = start / size;
    assert(size * q == q * size) by (nonlinear_arith);
    vstd::arithmetic::div_mod::lemma_fundamental_div_mod_converse(
        iova as int,
        size,
        q,
        start % size + (iova - start),
    );
}

/// After a range has been mapped to consecutive pages, every address in it translates to the byte at
/// the same distance from the first page; mapped to one page, to the byte at the same offset in it.
pub proof fn lemma_map_translates(
    s0: UatPageTable,
    m0: TableMemory,
    s: UatPageTable,
    m: TableMemory,
    range: Range<u64>,
    phys: u64,
    prot: Prot,
    one_page: bool,
    iova: u64,
)
    requires
        s0.wf(m0),
        prot.fits(),
        straight(s0, range),
        s0.walk_done(
            m0,
            s,
            m,
            range,
            true,
            s0.mapping(phys, prot, one_page),
            Ok::<(), Error>(()),
        ),
        forall|q: int|
            s0.first_page(range.start) <= q < s0.end_page(range.end) ==> !(#[trigger] s0.tree(
                m0,
            ).blocked(q)),
        range.start <= iova < range.end,
        ({
            let page = if one_page {
                phys as int
            } else {
                phys + (iova - range.start) / 0x4000 * 0x4000
            };
            page <= u64::MAX && tables::frame_of(page as u64, s0.oas_mask) == page
        }),
    ensures
        s.translation(m, iova) == Some(
            (if one_page {
                phys + iova % 0x4000
            } else {
                phys + (iova - range.start)
            }) as u64,
        ),
{
    let t0 = s0.tree(m0);
    let lo = s0.first_page(range.start);
    let q = s0.first_page(iova);
    lemma_page_in_range(s0, range, iova);
    assert forall|p: int| lo <= p < q implies #[trigger] walk::visited(t0, true, p) by {
        assert(!t0.blocked(p));
    }
    walk::lemma_visits_all(t0, true, lo, q);
    assert(!t0.blocked(q));
    assert(s.first_page(iova) == q);
    let page = if one_page {
        phys
    } else {
        (phys + (iova - range.start) / 0x4000 * 0x4000) as u64
    };
    let bits = prot::pte_of(prot) | s0.type_bits();
    assert(s.tree(m).value(q) == page | bits);
    prot::lemma_mapping_frame(page, prot, s0.type_bits(), s0.oas_mask);
    assert((iova - range.start) / 0x4000 * 0x4000 + iova % 0x4000 == iova - range.start);
}

/// After a range has been unmapped, no address in it translates.
pub proof fn lemma_unmap_clears(
    s0: UatPageTable,
    m0: TableMemory,
    s: UatPageTable,
    m: TableMemory,
    range: Range<u64>,
    out: Result<(), Error>,
    iova: u64,
)
    requires
        s0.wf(m0),
        straight(s0, range),
        s0.walk_done(m0, s, m, range, false, Edit::Clear, out),
        range.start <= iova < range.end,
    ensures
        out is Ok,
        s.translation(m, iova) is None,
{
    let q = s0.first_page(iova);
    lemma_page_in_range(s0, range, iova);
    tables::lemma_zero_bits();
    assert(s.tree(m).value(q) == 0);
}

/// A walk changes the translation of no address outside its pages, whatever it does and however it
/// ends.
pub proof fn lemma_walk_elsewhere(
    s0: UatPageTable,
    m0: TableMemory,
    s: UatPageTable,
    m: TableMemory,
    range: Range<u64>,
    alloc: bool,
    edit: Edit,
    out: Result<(), Error>,
    iova: u64,
)
    requires
        s0.wf(m0),
        s0.walk_done(m0, s, m, range, alloc, edit, out),
        !(s0.first_page(range.start) <= s0.first_page(iova) < s0.end_page(range.end)),
    ensures
        s.translation(m, iova) == s0.translation(m0, iova),
{
    let q = s0.first_page(iova);
    vstd::arithmetic::div_mod::lemma_mod_bound(iova as int, s0.ias_mask + 1);
    assert(tables::in_tree(q));
    if out is Err && s0.walk_kept(m0, s, m) && out->Err_0 == Error::ENOMEM {
        let t0 = s0.tree(m0);
        let t = s.tree(m);
        let lo = s0.first_page(range.start);
        let stop = choose|stop: int|
            {
                &&& lo <= stop < s0.end_page(range.end)
                &&& walk::needed(t0, lo, stop) <= m0.free@.len() < walk::needed(t0, lo, stop + 1)
                &&& #[trigger] walk::outcome(t0, t, alloc, edit, lo, stop)
            };
        assert(t.value(q) == t0.value(q));
    } else {
        assert(s.tree(m).value(q) == s0.tree(m0).value(q));
    }
}

/// Changing the rights of a mapping keeps the page that it maps.
pub proof fn lemma_reprot_keeps_frame(entry: u64, prot: Prot, oas_mask: u64)
    requires
        prot.fits(),
        oas_mask < 0x10_0000_0000_0000,
        tables::is_valid(entry),
    ensures
        ({
            let changed = walk::edited(
                Edit::Protect { bits: prot::pte_of(prot) },
                0,
                entry,
            );
            &&& tables::is_valid(changed)
            &&& tables::frame_of(changed, oas_mask) == tables::frame_of(entry, oas_mask)
            &&& Prot::from_pte(changed) == prot
        }),
{
    let a = prot.ap;
    let h = prot.high_bits;
    let m = prot.memattr;
    let pte = prot::pte_of(prot);
    let n = (entry & !0xfff0_0000_0000_00dcu64) | pte;
    assert(n & 3 == 3 && n & oas_mask & !0x3fffu64 == entry & oas_mask & !0x3fffu64 && ((n & 0x1c)
        >> 2) as u8 == m && ((n & 0xc0) >> 6) as u8 == a && (n >> 52) as u16 == h) by (bit_vector)
        requires
            a <= 3,
            m <= 7,
            h <= 0xfff,
            pte == ((a as u64) << 6) | ((h as u64) << 52) | ((m as u64) << 2) | 0x400,
            n == (entry & !0xfff0_0000_0000_00dcu64) | pte,
            oas_mask < 0x10_0000_0000_0000,
            entry & 3 == 3,
    ;
}

/// A walk below one root changes nothing below another root that shares no table with it.
pub proof fn lemma_roots_independent(t0: Tree, t: Tree, other0: Tree, other: Tree)
    requires
        walk::framed(t0, t),
        other0.tables == t0.tables,
        other == (Tree { tables: t.tables, root: other0.root, oas_mask: other0.oas_mask }),
        other0.wf(),
        forall|x: u64| #[trigger] other0.holds(x) ==> !t0.holds(x),
    ensures
        other.same_links(other0),
        other.same_values(other0),
        other.same_blocked(other0),
{
    assert(other0.holds(other0.root));
    assert forall|i: int| 0 <= i < ENTRIES implies #[trigger] other.l1(i) == other0.l1(i) by {}
    assert forall|i: int, j: int| 0 <= i < ENTRIES && 0 <= j < ENTRIES implies #[trigger] other.leaf(
        i,
        j,
    ) == other0.leaf(i, j) by {
        assert(other.l1(i) == other0.l1(i));
        if other0.l1(i) is Some {
            assert(other0.holds(other0.l1(i)->0));
        }
    }
    assert forall|q: int| tables::in_tree(q) implies #[trigger] other.value(q) == other0.value(q) by {
        tables::lemma_positions(q);
        let i = tables::upper(q);
        let j = tables::middle(q);
        assert(other.leaf(i, j) == other0.leaf(i, j));
        if other0.leaf(i, j) is Some {
            assert(other0.holds(other0.leaf(i, j)->0));
        }
    }
    assert forall|q: int| tables::in_tree(q) implies #[trigger] other.blocked(q) == other0.blocked(
        q,
    ) by {
        tables::lemma_positions(q);
        let i = tables::upper(q);
        assert(other.l1(i) == other0.l1(i));
        if other0.l1(i) is Some {
            assert(other0.holds(other0.l1(i)->0));
        }
        assert(other.leaf(i, tables::middle(q)) == other0.leaf(i, tables::middle(q)));
    }
}

/// Putting back the entry that was read before a page was replaced restores every translation.
pub proof fn lemma_leaf_restored(
    s0: UatPageTable,
    m0: TableMemory,
    s1: UatPageTable,
    m1: TableMemory,
    s2: UatPageTable,
    m2: TableMemory,
    address: u64,
    iova: u64,
)
    requires
        s0.wf(m0),
        s1.same_root(s0),
        s2.same_root(s0),
        s1.tree(m1).leaf_of(s0.first_page(address)) is Some,
        forall|q: int|
            tables::in_tree(q) && q != s0.first_page(address) ==> #[trigger] s1.tree(m1).value(q)
                == s0.tree(m0).value(q),
        forall|q: int|
            tables::in_tree(q) ==> #[trigger] s2.tree(m2).value(q) == if q == s1.first_page(address)
                && s1.tree(m1).leaf_of(q) is Some {
                s0.tree(m0).value(s0.first_page(address))
            } else {
                s1.tree(m1).value(q)
            },
    ensures
        s2.translation(m2, iova) == s0.translation(m0, iova),
{
    let q = s0.first_page(iova);
    vstd::arithmetic::div_mod::lemma_mod_bound(iova as int, s0.ias_mask + 1);
    assert(tables::in_tree(q));
    assert(s2.tree(m2).value(q) == s0.tree(m0).value(q)) by {
        if q != s0.first_page(address) {
            assert(s1.tree(m1).value(q) == s0.tree(m0).value(q));
        }
    }
}

} // verus!
