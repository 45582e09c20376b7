//! Client address spaces.
//!
//! The firmware bootstrap root is separate from these roots, even when the hardware context table is
//! using slot zero.
use crate::compute;
use crate::error::Error;
use crate::pgtable;
use crate::pgtable::UatPageTable;
use crate::pgtable_laws;
use crate::prot;
use crate::prot::Prot;
use crate::render;
use crate::tables;
use crate::tables::{TableMemory, Tree, ENTRIES};
use crate::walk;
use core::ops::Range;
use std::collections::HashMap;
use vstd::prelude::*;

verus! {

/// Input address bits of a root.
pub const IAS: usize = 42;

/// Output address bits of an entry.
pub const OAS: u32 = 42;

/// Base of the shader aperture.
pub const USC_BASE: u64 = 0x100_0000_0000;

/// Published root addresses. A submission retains its VM until the GPU has completed; copying these
/// addresses does not transfer page ownership.
#[derive(Clone, Copy, Debug, PartialEq, Eq, Structural)]
pub struct Roots {
    pub low: u64,
    pub high: u64,
}

/// The two roots of a client, and the pages that it owns by their addresses.
pub struct AddressSpace {
    pub low: UatPageTable,
    pub high: UatPageTable,
    pub pages: HashMap<u64, u64>,
    pub compute_scratch: Range<u64>,
    pub render_scratch: Range<u64>,
}

/// Whether two trees share no table.
pub open spec fn disjoint(a: Tree, b: Tree) -> bool {
    forall|x: u64| #[trigger] a.holds(x) ==> !b.holds(x)
}

/// Whether no foreign entry stands in the way of any page.
pub open spec fn unblocked(t: Tree) -> bool {
    forall|q: int| tables::in_tree(q) ==> !(#[trigger] t.blocked(q))
}

/// Whether a root has the geometry of a client root and is owned.
pub open spec fn client_root(table: UatPageTable) -> bool {
    table.ttb_owned && client_geometry(table)
}

/// Whether a root has the geometry of a client root.
pub open spec fn client_geometry(table: UatPageTable) -> bool {
    &&& table.va_range.start == 0
    &&& table.va_range.end == 0x400_0000_0000
    &&& table.oas_mask == 0x3ff_ffff_ffff
    &&& table.ias_mask == 0x3ff_ffff_ffff
}

/// Whether all frames of a pool are page addresses that an entry can hold.
pub open spec fn frames_ok(frames: Seq<u64>) -> bool {
    forall|k: int|
        0 <= k < frames.len() ==> tables::frame_of(#[trigger] frames[k], 0x3ff_ffff_ffff) == frames[k]
}

/// A page address below the output address mask is aligned.
pub proof fn lemma_frame_aligned(f: u64)
    by (bit_vector)
    requires
        f & 0x3ff_ffff_ffffu64 & !0x3fffu64 == f,
    ensures
        f % 0x4000 == 0,
        f <= 0x3ff_ffff_c000,
{
}

/// An address below the top of a client root is in the page of its quotient.
pub proof fn lemma_client_page(table: UatPageTable, v: u64)
    requires
        client_geometry(table),
        v < 0x400_0000_0000,
    ensures
        table.first_page(v) == v / 0x4000,
        tables::in_tree(v as int / 0x4000),
{
    vstd::arithmetic::div_mod::lemma_small_mod(v as nat, 0x400_0000_0000);
}

/// A walk below one root leaves a root that shares no table with it as it was.
pub proof fn lemma_other_kept(
    s0: UatPageTable,
    m0: TableMemory,
    s: UatPageTable,
    m: TableMemory,
    other: UatPageTable,
)
    requires
        s0.wf(m0),
        s.same_root(s0),
        walk::framed(s0.tree(m0), s.tree(m)),
        m.wf(),
        m.free_ok(s0.oas_mask),
        other.wf(m0),
        other.oas_mask == s0.oas_mask,
        disjoint(s0.tree(m0), other.tree(m0)),
    ensures
        other.wf(m),
        other.tree(m).same_links(other.tree(m0)),
        other.tree(m).same_values(other.tree(m0)),
        other.tree(m).same_blocked(other.tree(m0)),
        disjoint(s.tree(m), other.tree(m)),
{
    let t0 = s0.tree(m0);
    let t = s.tree(m);
    let o0 = other.tree(m0);
    let o = other.tree(m);
    assert forall|x: u64| #[trigger] o0.holds(x) implies !t0.holds(x) by {
        if t0.holds(x) {
            assert(!o0.holds(x));
        }
    }
    pgtable_laws::lemma_roots_independent(t0, t, o0, o);
    assert forall|x: u64| o.holds(x) == o0.holds(x) by {
        walk::lemma_holds_by_links(o, o0, x);
        assert(o0.same_links(o)) by {
            assert forall|i: int| 0 <= i < ENTRIES implies #[trigger] o0.l1(i) == o.l1(i) by {
                assert(o.l1(i) == o0.l1(i));
            }
            assert forall|i: int, j: int|
                0 <= i < ENTRIES && 0 <= j < ENTRIES implies #[trigger] o0.leaf(i, j) == o.leaf(
                i,
                j,
            ) by {
                assert(o.leaf(i, j) == o0.leaf(i, j));
            }
        }
        walk::lemma_holds_by_links(o0, o, x);
    }
    assert forall|x: u64| o0.holds(x) implies o0.tables.contains_key(x) by {
        lemma_held_exists(o0, x);
    }
    assert forall|x: u64| #[trigger] t.holds(x) implies !o.holds(x) by {
        assert(o.holds(x) == o0.holds(x));
        if o0.holds(x) {
            assert(o0.tables.contains_key(x));
            assert(t0.holds(x));
        }
    }
    assert(o.wf()) by {
        assert(o0.holds(o0.root));
        assert forall|i: int| 0 <= i < ENTRIES implies ((#[trigger] o.l1(i)) matches Some(x) ==> x
            != o.root && o.tables.contains_key(x)) by {
            assert(o.l1(i) == o0.l1(i));
        }
        assert forall|i: int, j: int| 0 <= i < ENTRIES && 0 <= j < ENTRIES implies (
        (#[trigger] o.leaf(i, j)) matches Some(x) ==> x != o.root && o.tables.contains_key(x)) by {
            assert(o.leaf(i, j) == o0.leaf(i, j));
        }
        assert forall|i: int, k: int|
            0 <= i < ENTRIES && 0 <= k < ENTRIES && i != k && (#[trigger] o.l1(
                i,
            )) is Some implies (#[trigger] o.l1(k)) != o.l1(i) by {
            assert(o.l1(i) == o0.l1(i) && o.l1(k) == o0.l1(k));
        }
        assert forall|i: int, j: int, k: int, l: int|
            0 <= i < ENTRIES && 0 <= j < ENTRIES && 0 <= k < ENTRIES && 0 <= l < ENTRIES && (i != k
                || j != l) && (#[trigger] o.leaf(i, j)) is Some implies (#[trigger] o.leaf(k, l))
            != o.leaf(i, j) by {
            assert(o.leaf(i, j) == o0.leaf(i, j) && o.leaf(k, l) == o0.leaf(k, l));
        }
        assert forall|i: int, k: int, l: int|
            0 <= i < ENTRIES && 0 <= k < ENTRIES && 0 <= l < ENTRIES && (#[trigger] o.l1(
                i,
            )) is Some implies (#[trigger] o.leaf(k, l)) != o.l1(i) by {
            assert(o.l1(i) == o0.l1(i) && o.leaf(k, l) == o0.leaf(k, l));
        }
    }
    let owned = other.owned_tables@;
    assert forall|i: int| 0 <= i < owned.len() implies {
        let p = #[trigger] owned[i];
        &&& o.tables.contains_key(p.phys)
        &&& o.tables.contains_key(p.parent)
        &&& o.link(p.parent, p.index as int) == Some(p.phys)
        &&& p.parent == o.root || pgtable::is_level_one(o, p.parent)
    } by {
        let p = owned[i];
        if p.parent != o0.root {
            let k = choose|k: int| 0 <= k < ENTRIES && #[trigger] o0.l1(k) == Some(p.parent);
            assert(o.l1(k) == Some(p.parent));
            assert(pgtable::is_level_one(o, p.parent));
            assert(o0.holds(p.parent));
        } else {
            assert(o0.holds(p.parent));
        }
        assert(t0.tables.contains_key(p.parent));
    }
}

/// The tables that a tree holds exist.
pub proof fn lemma_held_exists(t: Tree, x: u64)
    requires
        t.wf(),
        t.holds(x),
    ensures
        t.tables.contains_key(x),
{
    if x != t.root {
        if exists|i: int| 0 <= i < ENTRIES && #[trigger] t.l1(i) == Some(x) {
            let i = choose|i: int| 0 <= i < ENTRIES && #[trigger] t.l1(i) == Some(x);
            assert(t.l1(i) == Some(x));
        } else {
            let (i, j) = choose|i: int, j: int|
                0 <= i < ENTRIES && 0 <= j < ENTRIES && #[trigger] t.leaf(i, j) == Some(x);
            assert(t.leaf(i, j) == Some(x));
        }
    }
}

/// The pages that are owned after `k` frames of a pool were put behind an address.
pub open spec fn pages_with(pages: Map<u64, u64>, va: int, frames: Seq<u64>, k: int) -> Map<u64, u64>
    decreases k,
{
    if k <= 0 {
        pages
    } else {
        pages_with(pages, va, frames, k - 1).insert(
            (va + (k - 1) * 0x4000) as u64,
            frames[frames.len() - k],
        )
    }
}

impl AddressSpace {
    /// Both roots are well-formed client roots that share no table and have nothing foreign in them.
    pub open spec fn wf(self, mem: TableMemory) -> bool {
        &&& self.low.wf(mem)
        &&& self.high.wf(mem)
        &&& client_root(self.low)
        &&& client_root(self.high)
        &&& disjoint(self.low.tree(mem), self.high.tree(mem))
        &&& unblocked(self.low.tree(mem))
        &&& unblocked(self.high.tree(mem))
        &&& self.low.ttb % 0x4000 == 0
    }

    /// The leaf entry of a page below the low root.
    pub open spec fn entry(self, mem: TableMemory, page: int) -> u64 {
        self.low.tree(mem).value(page)
    }

    /// Same roots, high mappings, owned pages and scratch ranges; only what a walk records may differ.
    pub open spec fn same_but_walked(self, other: AddressSpace) -> bool {
        &&& self.low.same_root(other.low)
        &&& self.low.owned_tables@ == other.low.owned_tables@
        &&& self.high == other.high
        &&& self.pages@ == other.pages@
        &&& self.compute_scratch == other.compute_scratch
        &&& self.render_scratch == other.render_scratch
    }

    /// Same roots and scratch ranges; mappings and owned pages may differ.
    pub open spec fn same_roots(self, other: AddressSpace) -> bool {
        &&& self.low.same_root(other.low)
        &&& self.high == other.high
        &&& self.compute_scratch == other.compute_scratch
        &&& self.render_scratch == other.render_scratch
    }

    /// The root addresses.
    pub fn roots(&self) -> (out: Roots)
        ensures
            out.low == self.low.ttb,
            out.high == self.high.ttb,
    {
        Roots { low: self.low.ttb(), high: self.high.ttb() }
    }

    /// Allocates both roots of a client.
    pub fn new(mem: &mut TableMemory) -> (out: Result<Self, Error>)
        requires
            old(mem).wf(),
            old(mem).free_ok(0x3ff_ffff_ffff),
        ensures
            if old(mem).free@.len() < 2 {
                &&& out is Err
                &&& out->Err_0 == Error::ENOMEM
                &&& final(mem).map() == old(mem).map()
                &&& final(mem).free@ == old(mem).free@
            } else {
                let n = old(mem).free@.len();
                &&& out is Ok
                &&& out->Ok_0.wf(*final(mem))
                &&& out->Ok_0.low.ttb == old(mem).free@[n - 1]
                &&& out->Ok_0.high.ttb == old(mem).free@[n - 2]
                &&& out->Ok_0.pages@ == Map::<u64, u64>::empty()
                &&& out->Ok_0.compute_scratch == (Range { start: 0u64, end: 0u64 })
                &&& out->Ok_0.render_scratch == (Range { start: 0u64, end: 0u64 })
                &&& forall|q: int|
                    tables::in_tree(q) ==> (#[trigger] out->Ok_0.entry(*final(mem), q)) == 0
                &&& forall|q: int|
                    tables::in_tree(q) ==> (#[trigger] out->Ok_0.high.tree(*final(mem)).value(q))
                        == 0
                &&& final(mem).free@ == old(mem).free@.take(n - 2)
            },
    {
        broadcast use vstd::std_specs::hash::group_hash_axioms;

        proof {
            vstd::arithmetic::power2::lemma2_to64_rest();
        }
        let ghost m0 = *mem;
        let low = match UatPageTable::new_with_ias(mem, OAS, IAS) {
            Err(e) => {
                return Err(e);
            },
            Ok(low) => low,
        };
        let ghost m1 = *mem;
        proof {
            assert(m0.free@[m0.free@.len() - 1] == low.ttb);
            lemma_root_alone(low, m1);
        }
        let high = match UatPageTable::new_with_ias(mem, OAS, IAS) {
            Err(e) => {
                proof {
                    lemma_high_same(low, m1, *mem);
                    assert(low.tree(*mem) == low.tree(m1));
                    assert(low.given_back() =~= seq![low.ttb]);
                }
                let ghost m2 = *mem;
                let ghost ttb = low.ttb;
                let ghost t = low.tree(*mem);
                low.release(mem);
                proof {
                    assert(mem.free@ =~= m0.free@);
                    assert(seq![ttb][0] == ttb);
                    assert forall|x: u64| mem.map().contains_key(x) implies m0.map().contains_key(x)
                        && mem.map()[x] == m0.map()[x] by {
                        assert(seq![ttb].contains(ttb));
                        assert(x != ttb);
                        if t.holds(x) {
                            assert(x == t.root);
                        }
                    }
                    assert forall|x: u64| m0.map().contains_key(x) implies mem.map().contains_key(
                        x,
                    ) by {
                        assert(x != ttb);
                        assert(m2.map().contains_key(x));
                        assert(!seq![ttb].contains(x));
                    }
                    assert(mem.map() =~= m0.map());
                }
                return Err(e);
            },
            Ok(high) => high,
        };
        proof {
            assert(m1.free@[m1.free@.len() - 1] == high.ttb);
            lemma_free_shrinks(m0, m1, low.oas_mask);
            lemma_free_shrinks(m1, *mem, low.oas_mask);
            lemma_root_added(low, m1, *mem, high.ttb);
            lemma_root_alone(high, *mem);
            lemma_frame_aligned(low.ttb);
            assert(mem.free@ =~= m0.free@.take(m0.free@.len() - 2));
        }
        Ok(
            AddressSpace {
                low,
                high,
                pages: HashMap::new(),
                compute_scratch: 0..0,
                render_scratch: 0..0,
            },
        )
    }

    /// The render parameters whose private storage starts at an address.
    pub open spec fn scratch_placed(p: render::Parameters, base: int, tilemap: int, tpc: int) ->
        render::Parameters {
        let meta = base + tilemap + tpc;
        render::Parameters {
            tilemap: base as u64,
            tpc: (base + tilemap) as u64,
            layermeta: meta as u64,
            heapmeta: (meta + (if p.layers > 1 {
                0x100int
            } else {
                0
            })) as u64,
            deflake_3: (meta + 0x4000) as u64,
            deflake_2: (meta + 0x4020) as u64,
            deflake_1: (meta + 0x42a0) as u64,
            ta_status: (meta + 0x8240) as u64,
            fragment_status: (meta + 0xc2c0) as u64,
            aux_fb: (meta + 0x10000) as u64,
            ..p
        }
    }

    /// The bytes of tilemap and tile pointers that a render needs.
    pub open spec fn scratch_of(p: render::Parameters) -> (int, int) {
        let g = p.geometry_of();
        (
            render::ceil_div(g.size1 * 64 * p.layers, 0x4000) * 0x4000,
            render::ceil_div(g.size3 * 64 * p.layers, 0x4000) * 0x4000,
        )
    }

    /// Gives a render its own tile metadata, deflake, status and auxiliary pages. Only fresh addresses
    /// are taken, so earlier renders keep stable mappings; the range is taken before a fallible
    /// allocation, so that no partial range is reused. Answers the word to put into the auxiliary
    /// page, and where it goes.
    pub fn prepare_render(
        &mut self,
        mem: &mut TableMemory,
        frames: &mut Vec<u64>,
        p: &mut render::Parameters,
    ) -> (out: Result<(u64, u64), Error>)
        requires
            old(self).wf(*old(mem)),
            frames_ok(old(frames)@),
        ensures
            final(self).wf(*final(mem)),
            ({
                let (tilemap, tpc) = Self::scratch_of(*old(p));
                let base = old(self).render_scratch.start;
                let size = tilemap + tpc + 5 * 0x4000;
                let untouched = *final(self) == *old(self) && *final(mem) == *old(mem)
                    && final(frames)@ == old(frames)@ && *final(p) == *old(p);
                if !old(p).is_valid() {
                    out == Err::<(u64, u64), Error>(Error::EINVAL) && untouched
                } else if base + size > u64::MAX || base + size > old(self).render_scratch.end {
                    out == Err::<(u64, u64), Error>(Error::ENOMEM) && untouched
                } else {
                    let staged = (AddressSpace {
                        render_scratch: (Range {
                            start: (base + size) as u64,
                            end: old(self).render_scratch.end,
                        }),
                        ..*old(self)
                    });
                    &&& staged.alloc_done(
                        *old(mem),
                        old(frames)@,
                        *final(self),
                        *final(mem),
                        final(frames)@,
                        base,
                        size as u64,
                        prot::prot_gpu_shared_rw(),
                        match out {
                            Ok(_) => Ok(()),
                            Err(e) => Err(e),
                        },
                    )
                    &&& match out {
                        Ok((address, word)) => {
                            &&& *final(p) == Self::scratch_placed(
                                *old(p),
                                base as int,
                                tilemap,
                                tpc,
                            )
                            &&& address == final(p).aux_fb + 0x600
                            &&& word == 0x0000_035b_6000_0000
                        },
                        Err(_) => *final(p) == *old(p),
                    }
                }
            }),
    {
        let (tilemap, tpc): (u64, u64) = match p.scratch_sizes() {
            None => {
                return Err(Error::EINVAL);
            },
            Some(sizes) => sizes,
        };
        proof {
            p.lemma_geometry();
            let g = p.geometry_of();
            let layers = p.layers;
            assert(g.size1 * 64 * layers <= 81920 * 64 * 2048) by (nonlinear_arith)
                requires
                    g.size1 <= 81920,
                    layers <= 2048,
            ;
            assert(g.size3 * 64 * layers <= 131072 * 64 * 2048) by (nonlinear_arith)
                requires
                    g.size3 <= 131072,
                    layers <= 2048,
            ;
        }
        let base: u64 = self.render_scratch.start;
        let size: u64 = tilemap + tpc + 5 * 0x4000;
        let end: u64 = match base.checked_add(size) {
            None => {
                return Err(Error::ENOMEM);
            },
            Some(end) => end,
        };
        if end > self.render_scratch.end {
            return Err(Error::ENOMEM);
        }
        self.render_scratch.start = end;
        assert(self.low.tree(*mem) == old(self).low.tree(*old(mem)));
        assert(self.high.tree(*mem) == old(self).high.tree(*old(mem)));
        match self.alloc_low(mem, frames, base, size, prot::prot_gpu_shared_rw()) {
            Err(e) => {
                return Err(e);
            },
            Ok(_) => {},
        }
        p.tilemap = base;
        p.tpc = base + tilemap;
        let meta: u64 = base + tilemap + tpc;
        p.layermeta = meta;
        p.heapmeta = if p.layers > 1 {
            meta + 0x100
        } else {
            meta
        };
        p.deflake_3 = meta + 0x4000;
        p.deflake_2 = meta + 0x4020;
        p.deflake_1 = meta + 0x42a0;
        p.ta_status = meta + 0x8240;
        p.fragment_status = meta + 0xc2c0;
        p.aux_fb = meta + 0x10000;
        Ok((meta + 0x10600, 0x0000_035b_6000_0000))
    }

    /// Sets the aperture from which compute commands take their private scratch.
    pub fn init_compute_private(&mut self, range: Range<u64>)
        ensures
            *final(self) == (AddressSpace { compute_scratch: range, ..*old(self) }),
    {
        self.compute_scratch = range;
    }

    /// Gives a compute command its own scratch. A later command never replaces a live mapping.
    pub fn prepare_compute(
        &mut self,
        mem: &mut TableMemory,
        frames: &mut Vec<u64>,
        p: &mut compute::Parameters,
    ) -> (out: Result<(), Error>)
        requires
            old(self).wf(*old(mem)),
            frames_ok(old(frames)@),
        ensures
            final(self).wf(*final(mem)),
            ({
                let base = old(self).compute_scratch.start;
                if base + 0x24000 > u64::MAX || base + 0x24000 > old(self).compute_scratch.end {
                    out == Err::<(), Error>(Error::ENOMEM) && *final(self) == *old(self)
                        && *final(mem) == *old(mem) && final(frames)@ == old(frames)@ && *final(p)
                        == *old(p)
                } else {
                    let staged = (AddressSpace {
                        compute_scratch: (Range {
                            start: (base + 0x24000) as u64,
                            end: old(self).compute_scratch.end,
                        }),
                        ..*old(self)
                    });
                    &&& staged.alloc_done(
                        *old(mem),
                        old(frames)@,
                        *final(self),
                        *final(mem),
                        final(frames)@,
                        base,
                        0x24000,
                        prot::prot_gpu_shared_rw(),
                        out,
                    )
                    &&& *final(p) == match out {
                        Ok(_) => (compute::Parameters {
                            scratch: base,
                            marker: (base + 0x20000) as u64,
                            ..*old(p)
                        }),
                        Err(_) => *old(p),
                    }
                }
            }),
    {
        let base: u64 = self.compute_scratch.start;
        let end: u64 = match base.checked_add(0x24000) {
            None => {
                return Err(Error::ENOMEM);
            },
            Some(end) => end,
        };
        if end > self.compute_scratch.end {
            return Err(Error::ENOMEM);
        }
        self.compute_scratch.start = end;
        assert(self.low.tree(*mem) == old(self).low.tree(*old(mem)));
        assert(self.high.tree(*mem) == old(self).high.tree(*old(mem)));
        match self.alloc_low(mem, frames, base, 0x24000, prot::prot_gpu_shared_rw()) {
            Err(e) => {
                return Err(e);
            },
            Ok(_) => {},
        }
        p.scratch = base;
        p.marker = base + 0x20000;
        Ok(())
    }

    /// The tables that the walkers of both roots have to be shown.
    pub fn sync(&self) -> (out: (Vec<u64>, Vec<u64>))
        ensures
            out.0@ == seq![self.low.ttb] + self.low.walked_tables@,
            out.1@ == seq![self.high.ttb] + self.high.walked_tables@,
    {
        (self.low.sync(), self.high.sync())
    }

    /// The entry bits of a client mapping.
    pub open spec fn bits(prot: Prot) -> u64 {
        prot::pte_of(prot) | 0x803
    }

    /// Why a page cannot be allocated: it is owned or mapped already, or outside the root.
    pub open spec fn conflict(self, mem: TableMemory, v: int) -> Option<Error> {
        if self.pages@.contains_key(v as u64) {
            Some(Error::EEXIST)
        } else if v + 0x4000 > 0x400_0000_0000 {
            Some(Error::EINVAL)
        } else if tables::is_valid(self.entry(mem, v / 0x4000)) {
            Some(Error::EEXIST)
        } else {
            None
        }
    }

    /// The first conflict among the pages `k..n` from an address on.
    pub open spec fn first_conflict(self, mem: TableMemory, va: int, k: int, n: int) -> Option<Error>
        decreases n - k,
    {
        if k >= n {
            None
        } else if self.conflict(mem, va + k * 0x4000) is Some {
            self.conflict(mem, va + k * 0x4000)
        } else {
            self.first_conflict(mem, va, k + 1, n)
        }
    }

    /// Finds why a page cannot be allocated.
    pub(crate) fn find_conflict(&mut self, mem: &mut TableMemory, v: u64) -> (out: Option<Error>)
        requires
            old(self).wf(*old(mem)),
            v % 0x4000 == 0,
            v + 0x4000 <= u64::MAX,
        ensures
            final(self).wf(*final(mem)),
            final(self).same_but_walked(*old(self)),
            final(mem).map() == old(mem).map(),
            final(mem).free@ == old(mem).free@,
            out == old(self).conflict(*old(mem), v as int),
    {
        broadcast use vstd::std_specs::hash::group_hash_axioms;

        let ghost s0 = *self;
        let ghost m0 = *mem;
        if self.pages.contains_key(&v) {
            return Some(Error::EEXIST);
        }
        let found = self.low.translate(mem, v);
        proof {
            if v + 0x4000 <= 0x400_0000_0000 {
                lemma_client_page(s0.low, v);
            }
            assert(self.low.tree(*mem) == s0.low.tree(m0));
            assert(self.high.tree(*mem) == s0.high.tree(m0));
            lemma_high_same(self.high, m0, *mem);
        }
        match found {
            Err(e) => Some(e),
            Ok(Some(_)) => Some(Error::EEXIST),
            Ok(None) => None,
        }
    }

    /// Maps one page below the low root.
    pub(crate) fn map_page(&mut self, mem: &mut TableMemory, v: u64, frame: u64, access: Prot) -> (out: Result<
        (),
        Error,
    >)
        requires
            old(self).wf(*old(mem)),
            v % 0x4000 == 0,
            v + 0x4000 <= 0x400_0000_0000,
            tables::frame_of(frame, 0x3ff_ffff_ffff) == frame,
        ensures
            final(self).wf(*final(mem)),
            final(self).low.same_root(old(self).low),
            walk::framed(old(self).low.tree(*old(mem)), final(self).low.tree(*final(mem))),
            walk::extends(old(self).low.tree(*old(mem)), final(self).low.tree(*final(mem))),
            final(self).high == old(self).high,
            final(self).high.tree(*final(mem)).same_values(old(self).high.tree(*old(mem))),
            final(self).pages@ == old(self).pages@,
            final(self).compute_scratch == old(self).compute_scratch,
            final(self).render_scratch == old(self).render_scratch,
            out is Err ==> out->Err_0 == Error::ENOMEM && old(mem).free@.len() < 2,
            final(mem).free@.len() + 2 >= old(mem).free@.len(),
            forall|q: int|
                tables::in_tree(q) ==> #[trigger] final(self).entry(*final(mem), q) == if out is Ok
                    && q == v as int / 0x4000 {
                    frame | Self::bits(access)
                } else {
                    old(self).entry(*old(mem), q)
                },
    {
        let ghost s0 = *self;
        let ghost m0 = *mem;
        proof {
            lemma_frame_aligned(frame);
            lemma_client_page(self.low, v);
            lemma_single_page(self.low, v);
            let lo = self.low.first_page(v);
            walk::lemma_visits_monotone(self.low.tree(*mem), true, lo, lo, lo + 1);
            reveal_with_fuel(walk::needed, 2);
        }
        let out = self.low.map_pages(mem, v..v + 0x4000, frame, access, false);
        proof {
            lemma_other_kept(s0.low, m0, self.low, *mem, self.high);
            assert(unblocked(self.high.tree(*mem))) by {
                assert forall|q: int| tables::in_tree(q) implies !(#[trigger] self.high.tree(
                    *mem,
                ).blocked(q)) by {
                    assert(!s0.high.tree(m0).blocked(q));
                }
            }
            lemma_walk_unblocked(s0.low, m0, self.low, *mem, v, frame, access, out);
            assert forall|q: int| tables::in_tree(q) implies #[trigger] self.entry(*mem, q) == if out
                is Ok && q == v as int / 0x4000 {
                frame | Self::bits(access)
            } else {
                s0.entry(m0, q)
            } by {
                assert(self.low.tree(*mem).value(q) == if out is Ok && q == v as int / 0x4000 {
                    frame | Self::bits(access)
                } else {
                    s0.low.tree(m0).value(q)
                });
            }
        }
        out
    }

    /// Backs a range below the low root with frames of a pool, page by page. The frames are cleaned
    /// before they are handed in, and stay owned by the space until it is destroyed.
    #[verifier::rlimit(40)]
    pub fn alloc_low(
        &mut self,
        mem: &mut TableMemory,
        frames: &mut Vec<u64>,
        va: u64,
        size: u64,
        access: Prot,
    ) -> (out: Result<(), Error>)
        requires
            old(self).wf(*old(mem)),
            frames_ok(old(frames)@),
        ensures
            old(self).alloc_done(
                *old(mem),
                old(frames)@,
                *final(self),
                *final(mem),
                final(frames)@,
                va,
                size,
                access,
                out,
            ),
    {
        broadcast use vstd::std_specs::hash::group_hash_axioms;

        let ghost s0 = *self;
        let ghost m0 = *mem;
        let ghost f0 = frames@;
        proof {
            walk::lemma_framed_refl(s0.low.tree(m0));
        }
        if size == 0 || va % 0x4000 != 0 || size % 0x4000 != 0 {
            return Err(Error::EINVAL);
        }
        let end: u64 = match va.checked_add(size) {
            None => {
                return Err(Error::EINVAL);
            },
            Some(end) => end,
        };
        let n: u64 = size / 0x4000;
        let mut k: u64 = 0;
        while k < n
            invariant
                k <= n,
                n == size / 0x4000,
                size % 0x4000 == 0,
                va % 0x4000 == 0,
                va + size == end,
                end <= u64::MAX,
                s0 == *old(self),
                m0 == *old(mem),
                f0 == old(frames)@,
                frames@ == f0,
                size > 0,
                s0.wf(m0),
                self.wf(*mem),
                self.same_but_walked(s0),
                walk::framed(s0.low.tree(m0), s0.low.tree(m0)),
                mem.map() == m0.map(),
                mem.free@ == m0.free@,
                s0.first_conflict(m0, va as int, 0, n as int) == s0.first_conflict(
                    m0,
                    va as int,
                    k as int,
                    n as int,
                ),
                forall|j: int| 0 <= j < k ==> s0.conflict(m0, #[trigger] (va + j * 0x4000)) is None,
            decreases n - k,
        {
            let ghost s1 = *self;
            match self.find_conflict(mem, va + k * 0x4000) {
                Some(e) => {
                    assert(s1.conflict(*mem, va + k * 0x4000) == s0.conflict(m0, va + k * 0x4000));
                    assert(self.low.tree(*mem) == s0.low.tree(m0));
                    return Err(e);
                },
                None => {},
            }
            assert(s0.conflict(m0, va + k * 0x4000) is None);
            k += 1;
        }
        assert(s0.conflict(m0, va + (n - 1) * 0x4000) is None);
        let ghost bits = Self::bits(access);
        k = 0;
        assert(self.low.tree(*mem) == s0.low.tree(m0));
        while k < n
            invariant
                k <= n,
                n == size / 0x4000,
                size % 0x4000 == 0,
                va % 0x4000 == 0,
                va + size == end,
                end <= 0x400_0000_0000,
                size > 0,
                s0 == *old(self),
                m0 == *old(mem),
                f0 == old(frames)@,
                frames_ok(f0),
                frames@ == f0.take(f0.len() - k),
                k <= f0.len(),
                mem.free@.len() + 2 * k >= m0.free@.len(),
                bits == Self::bits(access),
                s0.wf(m0),
                self.wf(*mem),
                self.high.tree(*mem).same_values(s0.high.tree(m0)),
                self.low.same_root(s0.low),
                walk::framed(s0.low.tree(m0), self.low.tree(*mem)),
                walk::extends(s0.low.tree(m0), self.low.tree(*mem)),
                self.high == s0.high,
                self.compute_scratch == s0.compute_scratch,
                self.render_scratch == s0.render_scratch,
                self.pages@ == pages_with(s0.pages@, va as int, f0, k as int),
                s0.first_conflict(m0, va as int, 0, n as int) is None,
                forall|q: int|
                    tables::in_tree(q) ==> #[trigger] self.entry(*mem, q) == if va / 0x4000 <= q < va
                        / 0x4000 + k {
                        f0[f0.len() - 1 - (q - va / 0x4000)] | bits
                    } else {
                        s0.entry(m0, q)
                    },
            decreases n - k,
        {
            let ghost s1 = *self;
            let ghost m1 = *mem;
            let frame: u64 = match frames.pop() {
                None => {
                    proof {
                        s0.lemma_alloc_prefix(
                            m0,
                            f0,
                            *self,
                            *mem,
                            frames@,
                            va,
                            access,
                            k as int,
                            k as int,
                            n as int,
                        );
                    }
                    return Err(Error::ENOMEM);
                },
                Some(frame) => frame,
            };
            let v: u64 = va + k * 0x4000;
            self.pages.insert(v, frame);
            proof {
                assert(f0[f0.len() - 1 - k] == frame);
                assert(self.pages@ == pages_with(s0.pages@, va as int, f0, k + 1));
                assert(frames@ =~= f0.take(f0.len() - (k + 1)));
            }
            let ghost s2 = *self;
            let mapped = self.map_page(mem, v, frame, access);
            proof {
                walk::lemma_framed_trans(s0.low.tree(m0), s2.low.tree(m1), self.low.tree(*mem));
                walk::lemma_extends_trans(s0.low.tree(m0), s2.low.tree(m1), self.low.tree(*mem));
                assert(va as int / 0x4000 + k == v as int / 0x4000);
                assert(self.high.tree(*mem).same_values(s0.high.tree(m0))) by {
                    assert forall|q: int| tables::in_tree(q) implies #[trigger] self.high.tree(
                        *mem,
                    ).value(q) == s0.high.tree(m0).value(q) by {
                        assert(s1.high.tree(m1).value(q) == s0.high.tree(m0).value(q));
                    }
                }
                assert forall|q: int| tables::in_tree(q) implies #[trigger] self.entry(*mem, q)
                    == if va / 0x4000 <= q < va / 0x4000 + k + (if mapped is Ok {
                    1int
                } else {
                    0
                }) {
                    f0[f0.len() - 1 - (q - va / 0x4000)] | bits
                } else {
                    s0.entry(m0, q)
                } by {
                    assert(s1.entry(m1, q) == if va / 0x4000 <= q < va / 0x4000 + k {
                        f0[f0.len() - 1 - (q - va / 0x4000)] | bits
                    } else {
                        s0.entry(m0, q)
                    });
                    assert(s2.entry(m1, q) == s1.entry(m1, q));
                }
            }
            match mapped {
                Err(e) => {
                    proof {
                        s0.lemma_alloc_prefix(
                            m0,
                            f0,
                            *self,
                            *mem,
                            frames@,
                            va,
                            access,
                            k as int,
                            k + 1,
                            n as int,
                        );
                    }
                    return Err(e);
                },
                Ok(_) => {},
            }
            k += 1;
        }
        proof {
            assert(frames@ =~= f0.take(f0.len() - n));
        }
        Ok(())
    }

    /// What backing a range answers and leaves behind.
    pub open spec fn alloc_done(
        self,
        m0: TableMemory,
        f0: Seq<u64>,
        after: AddressSpace,
        m: TableMemory,
        f: Seq<u64>,
        va: u64,
        size: u64,
        access: Prot,
        out: Result<(), Error>,
    ) -> bool {
        let n = size as int / 0x4000;
        let first = va as int / 0x4000;
        let untouched = after.same_but_walked(self) && m.map() == m0.map() && m.free@ == m0.free@ && f
            == f0;
        &&& after.wf(m)
        &&& after.low.same_root(self.low)
        &&& walk::framed(self.low.tree(m0), after.low.tree(m))
        &&& walk::extends(self.low.tree(m0), after.low.tree(m))
        &&& after.high == self.high
        &&& after.high.tree(m).same_values(self.high.tree(m0))
        &&& after.compute_scratch == self.compute_scratch
        &&& after.render_scratch == self.render_scratch
        &&& if size == 0 || va % 0x4000 != 0 || size % 0x4000 != 0 || va + size > u64::MAX {
            out == Err::<(), Error>(Error::EINVAL) && untouched
        } else if self.first_conflict(m0, va as int, 0, n) is Some {
            out == Err::<(), Error>(self.first_conflict(m0, va as int, 0, n)->0) && untouched
        } else {
            match out {
                Ok(_) => {
                    &&& n <= f0.len()
                    &&& f == f0.take(f0.len() - n)
                    &&& m.free@.len() + 2 * n >= m0.free@.len()
                    &&& after.pages@ == pages_with(self.pages@, va as int, f0, n)
                    &&& forall|q: int|
                        tables::in_tree(q) ==> #[trigger] after.entry(m, q) == if first <= q < first
                            + n {
                            f0[f0.len() - 1 - (q - first)] | Self::bits(access)
                        } else {
                            self.entry(m0, q)
                        }
                },
                Err(e) => {
                    &&& e == Error::ENOMEM
                    &&& f0.len() < n || m0.free@.len() < 2 * n
                    &&& exists|k: int|
                        0 <= k <= n && #[trigger] self.partly_backed(
                            m0,
                            f0,
                            after,
                            m,
                            f,
                            va as int,
                            access,
                            k,
                        )
                    &&& forall|q: int|
                        tables::in_tree(q) && !(first <= q < first + n) ==> #[trigger] after.entry(
                            m,
                            q,
                        ) == self.entry(m0, q)
                },
            }
        }
    }

    /// Whether a range got `k` frames and no more: all of their pages are owned and mapped, but for the
    /// last one, of which the mapping may be missing.
    pub open spec fn partly_backed(
        self,
        m0: TableMemory,
        f0: Seq<u64>,
        after: AddressSpace,
        m: TableMemory,
        f: Seq<u64>,
        va: int,
        access: Prot,
        k: int,
    ) -> bool {
        let first = va / 0x4000;
        &&& 0 <= k <= f0.len()
        &&& f == f0.take(f0.len() - k)
        &&& after.pages@ == pages_with(self.pages@, va, f0, k)
        &&& forall|q: int|
            tables::in_tree(q) && !(first <= q < first + k) ==> #[trigger] after.entry(m, q)
                == self.entry(m0, q)
        &&& forall|q: int|
            tables::in_tree(q) && first <= q < first + k ==> {
                ||| #[trigger] after.entry(m, q) == f0[f0.len() - 1 - (q - first)] | Self::bits(access)
                ||| q == first + k - 1 && after.entry(m, q) == self.entry(m0, q)
            }
    }

    /// A range whose first pages are mapped is partly backed, whether the next frame was taken or not.
    proof fn lemma_alloc_prefix(
        self,
        m0: TableMemory,
        f0: Seq<u64>,
        after: AddressSpace,
        m: TableMemory,
        f: Seq<u64>,
        va: u64,
        access: Prot,
        mapped: int,
        k: int,
        n: int,
    )
        requires
            0 <= mapped <= k <= mapped + 1,
            k <= n,
            k <= f0.len(),
            f == f0.take(f0.len() - k),
            after.pages@ == pages_with(self.pages@, va as int, f0, k),
            forall|q: int|
                tables::in_tree(q) ==> #[trigger] after.entry(m, q) == if va / 0x4000 <= q < va
                    / 0x4000 + mapped {
                    f0[f0.len() - 1 - (q - va / 0x4000)] | Self::bits(access)
                } else {
                    self.entry(m0, q)
                },
        ensures
            self.partly_backed(m0, f0, after, m, f, va as int, access, k),
            forall|q: int|
                tables::in_tree(q) && !(va as int / 0x4000 <= q < va as int / 0x4000 + n)
                    ==> #[trigger] after.entry(m, q) == self.entry(m0, q),
    {
    }
}

/// A pool that lost its last page is as well-formed as before.
proof fn lemma_free_shrinks(m0: TableMemory, m: TableMemory, oas_mask: u64)
    requires
        m0.free_ok(oas_mask),
        m0.free@.len() > 0,
        m.free@ == m0.free@.drop_last(),
        m.map() == m0.map().insert(m0.free@.last(), tables::empty_table()),
    ensures
        m.free_ok(oas_mask),
{
    assert forall|k: int| 0 <= k < m.free@.len() implies {
        &&& !m.map().contains_key(#[trigger] m.free@[k])
        &&& tables::frame_of(m.free@[k], oas_mask) == m.free@[k]
    } by {
        assert(m.free@[k] == m0.free@[k]);
        assert(m0.free@[k] != m0.free@[m0.free@.len() - 1]);
    }
}

/// A root without entries holds no table but itself.
proof fn lemma_root_alone(table: UatPageTable, m: TableMemory)
    requires
        m.map()[table.ttb] == tables::empty_table(),
    ensures
        forall|x: u64| #[trigger] table.tree(m).holds(x) ==> x == table.ttb,
{
    let t = table.tree(m);
    tables::lemma_zero_bits();
    assert forall|i: int| 0 <= i < ENTRIES implies (#[trigger] t.l1(i)) is None by {
        assert(t.tables[t.root][i] == 0);
    }
    assert forall|x: u64| #[trigger] t.holds(x) implies x == table.ttb by {
        if x != t.root {
            if exists|i: int| 0 <= i < ENTRIES && #[trigger] t.l1(i) == Some(x) {
                let i = choose|i: int| 0 <= i < ENTRIES && #[trigger] t.l1(i) == Some(x);
                assert(t.l1(i) is None);
            } else {
                let (i, j) = choose|i: int, j: int|
                    0 <= i < ENTRIES && 0 <= j < ENTRIES && #[trigger] t.leaf(i, j) == Some(x);
                assert(t.l1(i) is None);
            }
        }
    }
}

/// Adding an unlinked table changes nothing below a root without entries.
proof fn lemma_root_added(table: UatPageTable, m0: TableMemory, m: TableMemory, added: u64)
    requires
        table.wf(m0),
        m0.map()[table.ttb] == tables::empty_table(),
        table.owned_tables@.len() == 0,
        !m0.map().contains_key(added),
        m.wf(),
        m.free_ok(table.oas_mask),
        m.map() == m0.map().insert(added, tables::empty_table()),
    ensures
        table.wf(m),
        forall|q: int| tables::in_tree(q) ==> (#[trigger] table.tree(m).value(q)) == 0,
        unblocked(table.tree(m)),
        forall|x: u64| #[trigger] table.tree(m).holds(x) ==> x == table.ttb,
{
    lemma_root_alone(table, m);
    pgtable::lemma_empty_root(table.tree(m));
}

/// A memory with the same tables keeps a root well-formed.
pub proof fn lemma_high_same(table: UatPageTable, m0: TableMemory, m: TableMemory)
    requires
        table.wf(m0),
        m.wf(),
        m.map() == m0.map(),
        m.free@ == m0.free@,
    ensures
        table.wf(m),
{
    assert(table.tree(m) == table.tree(m0));
    assert(m.free_ok(table.oas_mask));
}

/// A range of one page of a client root.
pub proof fn lemma_single_page(table: UatPageTable, v: u64)
    requires
        table.geometry_ok(),
        client_geometry(table),
        v % 0x4000 == 0,
        v + 0x4000 <= 0x400_0000_0000,
    ensures
        table.first_page(v) == v / 0x4000,
        table.end_page((v + 0x4000) as u64) == v / 0x4000 + 1,
{
    lemma_client_page(table, v);
    table.lemma_range_pages(v, (v + 0x4000) as u64);
}

/// Mapping one page of a client root sets that entry alone, and blocks nothing.
pub proof fn lemma_walk_unblocked(
    s0: UatPageTable,
    m0: TableMemory,
    s: UatPageTable,
    m: TableMemory,
    v: u64,
    frame: u64,
    access: Prot,
    out: Result<(), Error>,
)
    requires
        s0.wf(m0),
        client_geometry(s0),
        unblocked(s0.tree(m0)),
        v % 0x4000 == 0,
        v + 0x4000 <= 0x400_0000_0000,
        frame % 0x4000 == 0,
        s0.walk_done(
            m0,
            s,
            m,
            (Range { start: v, end: (v + 0x4000) as u64 }),
            true,
            s0.mapping(frame, access, false),
            out,
        ),
    ensures
        unblocked(s.tree(m)),
        out is Err ==> out->Err_0 == Error::ENOMEM,
        forall|q: int|
            tables::in_tree(q) ==> #[trigger] s.tree(m).value(q) == if out is Ok && q == v as int
                / 0x4000 {
                frame | (prot::pte_of(access) | s0.type_bits())
            } else {
                s0.tree(m0).value(q)
            },
{
    let t0 = s0.tree(m0);
    let t = s.tree(m);
    let lo = v as int / 0x4000;
    let edit = s0.mapping(frame, access, false);
    lemma_single_page(s0, v);
    let stop = if out is Ok {
        lo + 1
    } else {
        choose|stop: int|
            {
                &&& lo <= stop < lo + 1
                &&& walk::needed(t0, lo, stop) <= m0.free@.len() < walk::needed(t0, lo, stop + 1)
                &&& #[trigger] walk::outcome(t0, t, true, edit, lo, stop)
            }
    };
    assert(walk::outcome(t0, t, true, edit, lo, stop));
    assert forall|q: int| tables::in_tree(q) implies !(#[trigger] t.blocked(q)) by {
        assert(!t0.blocked(q));
    }
    assert forall|q: int| tables::in_tree(q) implies #[trigger] t.value(q) == if out is Ok && q == lo {
        frame | (prot::pte_of(access) | s0.type_bits())
    } else {
        t0.value(q)
    } by {
        assert(!t0.blocked(q));
        if q == lo {
            assert(walk::visits(t0, true, lo, q) == 0);
        }
    }
}

} // verus!
