//! Buffers in the address space of a client.
use crate::error::Error;
use crate::mapping::Extent;
use crate::pgtable;
use crate::pgtable::UatPageTable;
use crate::prot;
use crate::prot::Prot;
use crate::space;
use crate::space::AddressSpace;
use crate::space_check;
use crate::tables;
use crate::tables::TableMemory;
use crate::walk;
use crate::walk::Edit;
use vstd::prelude::*;

verus! {

/// A range of pages of a client root.
proof fn lemma_pages(table: UatPageTable, start: u64, end: u64)
    requires
        table.geometry_ok(),
        space::client_geometry(table),
        start % 0x4000 == 0,
        end % 0x4000 == 0,
        start < end <= 0x400_0000_0000,
    ensures
        table.first_page(start) == start / 0x4000,
        table.end_page(end) == end / 0x4000,
{
    space::lemma_client_page(table, start);
    assert(start as int / 0x400_0000_0000 == 0 && (end - 1) / 0x400_0000_0000 == 0);
    table.lemma_range_pages(start, end);
}

impl AddressSpace {
    /// The entry that a page of an extent gets.
    pub open spec fn extent_entry(extent: Extent, access: Prot, single: bool, page: int) -> u64 {
        let frame = if single {
            extent.physical as int
        } else {
            extent.physical + (page - extent.start as int / 0x4000) * 0x4000
        };
        (frame as u64) | Self::bits(access)
    }

    /// Whether a page belongs to an extent.
    pub open spec fn in_extent(extent: Extent, page: int) -> bool {
        extent.start as int / 0x4000 <= page < extent.end as int / 0x4000
    }

    /// Whether an extent can be mapped: it consists of whole pages of the space, and the pages behind it
    /// have addresses. Where one page stands behind all of it, that page does.
    pub open spec fn extent_ok(extent: Extent, single: bool) -> bool {
        &&& extent.start % 0x4000 == 0
        &&& extent.end % 0x4000 == 0
        &&& extent.physical % 0x4000 == 0
        &&& extent.start < extent.end <= 0x400_0000_0000
        &&& single || extent.physical + (extent.end - extent.start) <= u64::MAX
    }

    /// Whether the pages of an extent up to a page are mapped, and all others are as they were.
    pub open spec fn mapped_upto(
        s0: AddressSpace,
        m0: TableMemory,
        s: AddressSpace,
        m: TableMemory,
        extent: Extent,
        access: Prot,
        single: bool,
        stop: int,
    ) -> bool {
        forall|q: int|
            tables::in_tree(q) ==> #[trigger] s.entry(m, q) == if extent.start as int / 0x4000 <= q
                < stop {
                Self::extent_entry(extent, access, single, q)
            } else {
                s0.entry(m0, q)
            }
    }

    /// The number of pages of an extent.
    pub open spec fn extent_pages(extent: Extent) -> int {
        extent.end as int / 0x4000 - extent.start as int / 0x4000
    }

    /// Maps an extent below the low root, page by page.
    pub fn map_extent(&mut self, mem: &mut TableMemory, extent: &Extent, access: Prot, single: bool) -> (out:
        Result<(), Error>)
        requires
            old(self).wf(*old(mem)),
            Self::extent_ok(*extent, single),
        ensures
            final(self).wf(*final(mem)),
            final(self).low.same_root(old(self).low),
            walk::framed(old(self).low.tree(*old(mem)), final(self).low.tree(*final(mem))),
            walk::extends(old(self).low.tree(*old(mem)), final(self).low.tree(*final(mem))),
            final(self).high == old(self).high,
            final(self).high.tree(*final(mem)).same_values(old(self).high.tree(*old(mem))),
            final(self).pages@ == old(self).pages@,
            final(self).compute_scratch == old(self).compute_scratch,
            final(self).render_scratch == old(self).render_scratch,
            out is Err ==> out->Err_0 == Error::ENOMEM && walk::needed(
                old(self).low.tree(*old(mem)),
                extent.start as int / 0x4000,
                extent.end as int / 0x4000,
            ) > old(mem).free@.len(),
            out is Err ==> old(mem).free@.len() < 2 * Self::extent_pages(*extent),
            out is Ok ==> final(mem).free@.len() + 2 * Self::extent_pages(*extent)
                >= old(mem).free@.len(),
            exists|stop: int|
                {
                    &&& extent.start as int / 0x4000 <= stop <= extent.end as int / 0x4000
                    &&& (out is Ok) == (stop == extent.end as int / 0x4000)
                    &&& #[trigger] Self::mapped_upto(
                        *old(self),
                        *old(mem),
                        *final(self),
                        *final(mem),
                        *extent,
                        access,
                        single,
                        stop,
                    )
                },
    {
        let ghost s0 = *self;
        let ghost m0 = *mem;
        let ghost lo = extent.start as int / 0x4000;
        let ghost hi = extent.end as int / 0x4000;
        proof {
            lemma_pages(self.low, extent.start, extent.end);
            walk::lemma_visits_monotone(self.low.tree(*mem), true, lo, lo, hi);
            assert((hi - lo) * 0x4000 == extent.end - extent.start);
        }
        let out = self.low.map_pages(mem, extent.start..extent.end, extent.physical, access, single);
        proof {
            let t0 = s0.low.tree(m0);
            let t = self.low.tree(*mem);
            let edit = s0.low.mapping(extent.physical, access, single);
            walk::lemma_needed_bound(t0, lo, hi);
            space::lemma_other_kept(s0.low, m0, self.low, *mem, self.high);
            assert(space::unblocked(self.high.tree(*mem))) by {
                assert forall|q: int| tables::in_tree(q) implies !(#[trigger] self.high.tree(
                    *mem,
                ).blocked(q)) by {
                    assert(!s0.high.tree(m0).blocked(q));
                }
            }
            let stop = if out is Ok {
                hi
            } else {
                choose|stop: int|
                    {
                        &&& lo <= stop < hi
                        &&& walk::needed(t0, lo, stop) <= m0.free@.len() < walk::needed(
                            t0,
                            lo,
                            stop + 1,
                        )
                        &&& #[trigger] walk::outcome(t0, t, true, edit, lo, stop)
                    }
            };
            assert(walk::outcome(t0, t, true, edit, lo, stop));
            assert(space::unblocked(t)) by {
                assert forall|q: int| tables::in_tree(q) implies !(#[trigger] t.blocked(q)) by {
                    assert(!t0.blocked(q));
                }
            }
            assert forall|q: int| tables::in_tree(q) implies #[trigger] self.entry(*mem, q) == if lo
                <= q < stop {
                Self::extent_entry(*extent, access, single, q)
            } else {
                s0.entry(m0, q)
            } by {
                assert(!t0.blocked(q));
                assert(t.value(q) == if lo <= q < stop && walk::visited(t0, true, q) {
                    walk::edited(edit, walk::visits(t0, true, lo, q), t0.value(q))
                } else {
                    t0.value(q)
                });
                if lo <= q < stop {
                    assert forall|p: int| lo <= p < q implies #[trigger] walk::visited(t0, true, p) by {
                        assert(tables::in_tree(p));
                        assert(!t0.blocked(p));
                    }
                    walk::lemma_visits_all(t0, true, lo, q);
                }
            }
            assert(Self::mapped_upto(s0, m0, *self, *mem, *extent, access, single, stop));
        }
        out
    }

    /// Clears a range below the low root.
    pub fn unmap_low(&mut self, mem: &mut TableMemory, start: u64, end: u64)
        requires
            old(self).wf(*old(mem)),
            start % 0x4000 == 0,
            end % 0x4000 == 0,
            start < end <= 0x400_0000_0000,
        ensures
            final(self).wf(*final(mem)),
            final(self).same_but_walked(*old(self)),
            walk::framed(old(self).low.tree(*old(mem)), final(self).low.tree(*final(mem))),
            final(self).high.tree(*final(mem)).same_values(old(self).high.tree(*old(mem))),
            final(mem).free@ == old(mem).free@,
            forall|q: int|
                tables::in_tree(q) ==> #[trigger] final(self).entry(*final(mem), q) == if start as int
                    / 0x4000 <= q < end as int / 0x4000 {
                    0
                } else {
                    old(self).entry(*old(mem), q)
                },
    {
        let ghost s0 = *self;
        let ghost m0 = *mem;
        proof {
            lemma_pages(self.low, start, end);
        }
        let done = self.low.unmap_pages(mem, start..end);
        proof {
            let t0 = s0.low.tree(m0);
            let t = self.low.tree(*mem);
            let lo = start as int / 0x4000;
            let hi = end as int / 0x4000;
            space::lemma_other_kept(s0.low, m0, self.low, *mem, self.high);
            pgtable::lemma_kept_grown(s0.low, m0, self.low, *mem);
            assert(space::unblocked(self.high.tree(*mem))) by {
                assert forall|q: int| tables::in_tree(q) implies !(#[trigger] self.high.tree(
                    *mem,
                ).blocked(q)) by {
                    assert(!s0.high.tree(m0).blocked(q));
                }
            }
            assert(space::unblocked(t)) by {
                assert forall|q: int| tables::in_tree(q) implies !(#[trigger] t.blocked(q)) by {
                    assert(!t0.blocked(q));
                }
            }
            assert forall|q: int| tables::in_tree(q) implies #[trigger] self.entry(*mem, q) == if lo
                <= q < hi {
                0
            } else {
                s0.entry(m0, q)
            } by {
                assert(t.value(q) == if lo <= q < hi && walk::visited(t0, false, q) {
                    walk::edited(Edit::Clear, walk::visits(t0, false, lo, q), t0.value(q))
                } else {
                    t0.value(q)
                });
            }
        }
    }
}

impl AddressSpace {
    /// The entry of a page after the first `n` extents are mapped.
    pub open spec fn installed_entry(
        extents: Seq<Extent>,
        access: Prot,
        single: bool,
        n: int,
        page: int,
        before: u64,
    ) -> u64
        decreases n,
    {
        if n <= 0 {
            before
        } else if Self::in_extent(extents[n - 1], page) {
            Self::extent_entry(extents[n - 1], access, single, page)
        } else {
            Self::installed_entry(extents, access, single, n - 1, page, before)
        }
    }

    /// Whether the first and the last page of an extent translate to the pages behind them.
    pub open spec fn reads_back(extent: Extent, access: Prot, single: bool) -> bool {
        let first = extent.start as int / 0x4000;
        let last = extent.end as int / 0x4000 - 1;
        let target = if single {
            extent.physical as int
        } else {
            extent.physical + (extent.end - extent.start) - 0x4000
        };
        &&& space_check::entry_target(Self::extent_entry(extent, access, single, first), extent.start)
            == Some(extent.physical)
        &&& space_check::entry_target(
            Self::extent_entry(extent, access, single, last),
            (extent.end - 0x4000) as u64,
        ) == Some(target as u64)
    }

    /// The number of pages of the first `n` extents.
    pub open spec fn pages_of(extents: Seq<Extent>, n: int) -> int
        decreases n,
    {
        if n <= 0 {
            0
        } else {
            Self::pages_of(extents, n - 1) + Self::extent_pages(extents[n - 1])
        }
    }

    /// The first extents have no more pages than all of them.
    pub(crate) proof fn lemma_pages_of(extents: Seq<Extent>, single: bool, i: int, n: int)
        requires
            0 <= i <= n <= extents.len(),
            forall|k: int| 0 <= k < extents.len() ==> Self::extent_ok(#[trigger] extents[k], single),
        ensures
            Self::pages_of(extents, i) <= Self::pages_of(extents, n),
        decreases n,
    {
        if i < n {
            assert(Self::extent_ok(extents[n - 1], single));
            Self::lemma_pages_of(extents, single, i, n - 1);
        }
    }

    /// Whether a page belongs to one of some extents.
    pub open spec fn in_extents(extents: Seq<Extent>, page: int) -> bool {
        exists|k: int| 0 <= k < extents.len() && Self::in_extent(#[trigger] extents[k], page)
    }

    /// Maps the extents of a buffer, and reads the mapping back. Where this fails, pages outside the
    /// extents are as they were.
    pub fn install(&mut self, mem: &mut TableMemory, extents: &Vec<Extent>, access: Prot, single: bool) -> (out:
        Result<(), Error>)
        requires
            old(self).wf(*old(mem)),
            forall|k: int| 0 <= k < extents@.len() ==> Self::extent_ok(#[trigger] extents@[k], single),
        ensures
            final(self).wf(*final(mem)),
            final(self).low.same_root(old(self).low),
            walk::framed(old(self).low.tree(*old(mem)), final(self).low.tree(*final(mem))),
            final(self).high == old(self).high,
            final(self).high.tree(*final(mem)).same_values(old(self).high.tree(*old(mem))),
            final(self).pages@ == old(self).pages@,
            final(self).compute_scratch == old(self).compute_scratch,
            final(self).render_scratch == old(self).render_scratch,
            forall|q: int|
                tables::in_tree(q) && !Self::in_extents(extents@, q) ==> #[trigger] final(self).entry(
                    *final(mem),
                    q,
                ) == old(self).entry(*old(mem), q),
            match out {
                Ok(_) => {
                    &&& forall|q: int|
                        tables::in_tree(q) ==> #[trigger] final(self).entry(*final(mem), q)
                            == Self::installed_entry(
                            extents@,
                            access,
                            single,
                            extents@.len() as int,
                            q,
                            old(self).entry(*old(mem), q),
                        )
                    &&& forall|k: int|
                        0 <= k < extents@.len() ==> Self::reads_back(
                            #[trigger] extents@[k],
                            access,
                            single,
                        )
                    &&& final(mem).free@.len() + 2 * Self::pages_of(extents@, extents@.len() as int)
                        >= old(mem).free@.len()
                },
                Err(e) => {
                    ||| e == Error::ENOMEM && old(mem).free@.len() < 2 * Self::pages_of(
                        extents@,
                        extents@.len() as int,
                    )
                    ||| e == Error::EIO && exists|k: int|
                        0 <= k < extents@.len() && !Self::reads_back(
                            #[trigger] extents@[k],
                            access,
                            single,
                        )
                },
            },
    {
        let ghost s0 = *self;
        let ghost m0 = *mem;
        proof {
            walk::lemma_framed_refl(self.low.tree(*mem));
        }
        let mut i: usize = 0;
        while i < extents.len()
            invariant
                i <= extents@.len(),
                self.wf(*mem),
                forall|k: int| 0 <= k < extents@.len() ==> Self::extent_ok(#[trigger] extents@[k], single),
                self.low.same_root(s0.low),
                walk::framed(s0.low.tree(m0), self.low.tree(*mem)),
                walk::extends(s0.low.tree(m0), self.low.tree(*mem)),
                self.high == s0.high,
                self.high.tree(*mem).same_values(s0.high.tree(m0)),
                self.pages@ == s0.pages@,
                self.compute_scratch == s0.compute_scratch,
                self.render_scratch == s0.render_scratch,
                forall|q: int|
                    tables::in_tree(q) ==> #[trigger] self.entry(*mem, q) == Self::installed_entry(
                        extents@,
                        access,
                        single,
                        i as int,
                        q,
                        s0.entry(m0, q),
                    ),
                forall|k: int|
                    0 <= k < i ==> Self::reads_back(#[trigger] extents@[k], access, single),
                mem.free@.len() + 2 * Self::pages_of(extents@, i as int) >= m0.free@.len(),
                s0 == *old(self),
                m0 == *old(mem),
            decreases extents@.len() - i,
        {
            let extent: Extent = extents[i];
            assert(Self::extent_ok(extents@[i as int], single));
            let ghost s1 = *self;
            let ghost m1 = *mem;
            let mapped = self.map_extent(mem, &extent, access, single);
            let ghost stop = choose|stop: int|
                {
                    &&& extent.start as int / 0x4000 <= stop <= extent.end as int / 0x4000
                    &&& (mapped is Ok) == (stop == extent.end as int / 0x4000)
                    &&& #[trigger] Self::mapped_upto(
                        s1,
                        m1,
                        *self,
                        *mem,
                        extent,
                        access,
                        single,
                        stop,
                    )
                };
            proof {
                assert(Self::mapped_upto(s1, m1, *self, *mem, extent, access, single, stop));
                walk::lemma_framed_trans(s0.low.tree(m0), s1.low.tree(m1), self.low.tree(*mem));
                walk::lemma_extends_trans(s0.low.tree(m0), s1.low.tree(m1), self.low.tree(*mem));
                assert forall|q: int|
                    tables::in_tree(q) && !Self::in_extents(extents@, q) implies #[trigger] self.entry(
                    *mem,
                    q,
                ) == s0.entry(m0, q) by {
                    Self::lemma_outside(extents@, access, single, i as int, q, s0.entry(m0, q));
                    assert(!Self::in_extent(extents@[i as int], q));
                    assert(s1.entry(m1, q) == s0.entry(m0, q));
                }
            }
            match mapped {
                Err(e) => {
                    proof {
                        Self::lemma_pages_of(extents@, single, i + 1, extents@.len() as int);
                    }
                    return Err(e);
                },
                Ok(()) => {},
            }
            let ghost s2 = *self;
            let ghost m2 = *mem;
            let last: u64 = if single {
                extent.physical
            } else {
                extent.physical + (extent.end - extent.start) - 0x4000
            };
            let first_ok: bool = self.translates(mem, extent.start, Some(extent.physical));
            let last_ok: bool = first_ok && self.translates(mem, extent.end - 0x4000, Some(last));
            proof {
                assert forall|q: int| tables::in_tree(q) implies #[trigger] self.entry(*mem, q)
                    == s2.entry(m2, q) by {}
                assert(self.low.tree(*mem) == s2.low.tree(m2));
                let lo = extent.start as int / 0x4000;
                let hi = extent.end as int / 0x4000;
                assert((extent.end - 0x4000) as int / 0x4000 == hi - 1);
                assert(tables::in_tree(lo) && tables::in_tree(hi - 1));
                assert(s2.entry(m2, lo) == Self::extent_entry(extent, access, single, lo));
                assert(s2.entry(m2, hi - 1) == Self::extent_entry(extent, access, single, hi - 1));
                assert(last_ok == Self::reads_back(extents@[i as int], access, single));
                assert forall|q: int|
                    tables::in_tree(q) && !Self::in_extents(extents@, q) implies #[trigger] self.entry(
                    *mem,
                    q,
                ) == s0.entry(m0, q) by {
                    assert(s2.entry(m2, q) == s0.entry(m0, q));
                }
            }
            if !last_ok {
                return Err(Error::EIO);
            }
            i += 1;
            proof {
                assert forall|q: int| tables::in_tree(q) implies #[trigger] self.entry(*mem, q)
                    == Self::installed_entry(
                    extents@,
                    access,
                    single,
                    i as int,
                    q,
                    s0.entry(m0, q),
                ) by {
                    assert(self.entry(*mem, q) == s2.entry(m2, q));
                    assert(s1.entry(m1, q) == Self::installed_entry(
                        extents@,
                        access,
                        single,
                        i - 1,
                        q,
                        s0.entry(m0, q),
                    ));
                }
            }
        }
        proof {
            assert forall|q: int|
                tables::in_tree(q) && !Self::in_extents(extents@, q) implies #[trigger] self.entry(
                *mem,
                q,
            ) == s0.entry(m0, q) by {
                Self::lemma_outside(extents@, access, single, i as int, q, s0.entry(m0, q));
            }
        }
        Ok(())
    }

    /// Pages outside all extents keep their entries.
    pub(crate) proof fn lemma_outside(
        extents: Seq<Extent>,
        access: Prot,
        single: bool,
        n: int,
        q: int,
        before: u64,
    )
        requires
            0 <= n <= extents.len(),
            !Self::in_extents(extents, q),
        ensures
            Self::installed_entry(extents, access, single, n, q, before) == before,
        decreases n,
    {
        if n > 0 {
            assert(!Self::in_extent(extents[n - 1], q));
            Self::lemma_outside(extents, access, single, n - 1, q, before);
        }
    }
}

/// An extent whose pages lie below the hardware's output limit reads back.
pub proof fn lemma_extent_reads_back(extent: Extent, access: Prot, single: bool)
    requires
        AddressSpace::extent_ok(extent, single),
        access.fits(),
        extent.physical < 0x400_0000_0000,
        single || extent.physical + (extent.end - extent.start) <= 0x400_0000_0000,
    ensures
        AddressSpace::reads_back(extent, access, single),
{
    let size = extent.end - extent.start;
    let last = if single {
        extent.physical
    } else {
        (extent.physical + size - 0x4000) as u64
    };
    lemma_frame_below(extent.physical);
    lemma_frame_below(last);
    prot::lemma_mapping_frame(extent.physical, access, 0x803, 0x3ff_ffff_ffff);
    prot::lemma_mapping_frame(last, access, 0x803, 0x3ff_ffff_ffff);
}

/// A page address below the output limit is kept by the output mask.
proof fn lemma_frame_below(frame: u64)
    by (bit_vector)
    requires
        frame % 0x4000 == 0,
        frame < 0x400_0000_0000,
    ensures
        frame & 0x3ff_ffff_ffffu64 & !0x3fffu64 == frame,
{
}

/// Taking back a mapping that could not be completed leaves a range as it was that held nothing.
pub proof fn lemma_rollback(
    before: Seq<u64>,
    failed: Seq<u64>,
    after: Seq<u64>,
    extents: Seq<Extent>,
    lo: int,
    hi: int,
)
    requires
        before.len() == failed.len() == after.len(),
        forall|q: int|
            0 <= q < before.len() && !AddressSpace::in_extents(extents, q) ==> #[trigger] failed[q]
                == before[q],
        forall|q: int|
            0 <= q < before.len() ==> #[trigger] after[q] == if lo <= q < hi {
                0
            } else {
                failed[q]
            },
        forall|q: int| 0 <= q < before.len() && lo <= q < hi ==> #[trigger] before[q] == 0,
        forall|q: int| #[trigger] AddressSpace::in_extents(extents, q) ==> lo <= q < hi,
    ensures
        after == before,
{
    assert forall|q: int| 0 <= q < before.len() implies after[q] == before[q] by {
        if !(lo <= q < hi) {
            assert(!AddressSpace::in_extents(extents, q));
            assert(failed[q] == before[q]);
        }
    }
    assert(after =~= before);
}

/// Changes below the low root of one client leave another client as it was.
pub proof fn lemma_client_kept(
    s0: AddressSpace,
    m0: TableMemory,
    s: AddressSpace,
    m: TableMemory,
    other: AddressSpace,
    q: int,
)
    requires
        s0.wf(m0),
        s.low.same_root(s0.low),
        walk::framed(s0.low.tree(m0), s.low.tree(m)),
        m.wf(),
        m.free_ok(s0.low.oas_mask),
        other.wf(m0),
        space::disjoint(s0.low.tree(m0), other.low.tree(m0)),
        space::disjoint(s0.low.tree(m0), other.high.tree(m0)),
        tables::in_tree(q),
    ensures
        other.low.wf(m),
        other.high.wf(m),
        other.entry(m, q) == other.entry(m0, q),
        other.high.tree(m).value(q) == other.high.tree(m0).value(q),
{
    space::lemma_other_kept(s0.low, m0, s.low, m, other.low);
    space::lemma_other_kept(s0.low, m0, s.low, m, other.high);
}

} // verus!
