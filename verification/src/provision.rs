//! Storage for submissions: work items and the queues of a client, as regions of the firmware.
use crate::error::Error;
use crate::flights::Session;
use crate::fwspace;
use crate::fwspace::FirmwareSpace;
use crate::fwspace_ext;
use crate::lanes;
use crate::lanes::{lane_regions, FirmwareQueues, LANES_SIZE, WORK_BASE};
use crate::plan;
use crate::plan::Write;
use crate::prot::{prot_fw_priv_rw, prot_fw_shared_rw};
use crate::slots;
use crate::slots::with_slot;
use crate::space;
use crate::tables;
use crate::tables::TableMemory;
use crate::tvb::Region;
use crate::walk;
use crate::works;
use crate::works::{stride, Works};
use vstd::prelude::*;

verus! {

/// Pages of the first regions of a list.
pub open spec fn pages_of(regions: Seq<Region>, n: int) -> int
    decreases n,
{
    if n <= 0 {
        0
    } else {
        pages_of(regions, n - 1) + regions[n - 1].size / 0x4000
    }
}

/// Whether a page belongs to a region.
pub open spec fn in_region(region: Region, page: int) -> bool {
    FirmwareSpace::page_of(region.address as int) <= page < FirmwareSpace::page_of(
        region.address as int,
    ) + region.size as int / 0x4000
}

/// Whether a page belongs to one of the first regions of a list.
pub open spec fn in_list(regions: Seq<Region>, n: int, page: int) -> bool {
    exists|k: int| 0 <= k < n && #[trigger] in_region(regions[k], page)
}

impl FirmwareSpace {
    /// Whether a region is allocated, at a place in the order, with its rights.
    pub open spec fn shows_at(self, mem: TableMemory, i: int, region: Region) -> bool {
        let first = Self::page_of(region.address as int);
        &&& 0 <= i < self.regions@.len()
        &&& self.regions@[i].va == region.address
        &&& self.regions@[i].pages@.len() * 0x4000 == region.size
        &&& forall|q: int|
            first <= q < first + self.regions@[i].pages@.len() && !self.table.tree(mem).blocked(q)
                ==> #[trigger] self.entry(mem, q) == self.regions@[i].pages@[q - first]
                | Self::bits(region.prot)
    }

    /// Whether a region is allocated with its rights.
    pub open spec fn shows(self, mem: TableMemory, region: Region) -> bool {
        exists|i: int| #[trigger] self.shows_at(mem, i, region)
    }

    /// Whether the first regions of a list are allocated with their rights.
    pub open spec fn shows_all(self, mem: TableMemory, regions: Seq<Region>, n: int) -> bool {
        forall|k: int| 0 <= k < n ==> self.shows(mem, #[trigger] regions[k])
    }

    /// Whether all regions of an earlier state are still there.
    pub open spec fn keeps(self, before: FirmwareSpace) -> bool {
        forall|i: int|
            0 <= i < before.regions@.len() ==> self.regions@.contains(#[trigger] before.regions@[i])
    }

    /// Why allocating a list stops at a region, as things then are. Those before it are allocated. The
    /// region is not made of whole pages, it meets another one or a mapping, or memory has run out:
    /// frames, or tables, of which there were `spare` at first.
    pub open spec fn stops_at(
        self,
        mem: TableMemory,
        frames: Seq<u64>,
        spare: int,
        regions: Seq<Region>,
        k: int,
        e: Error,
    ) -> bool {
        let va = regions[k].address as int;
        let size = regions[k].size as int;
        &&& 0 <= k < regions.len()
        &&& self.shows_all(mem, regions, k)
        &&& if size == 0 || va % 0x4000 != 0 || size % 0x4000 != 0 || va + size > u64::MAX {
            e == Error::EINVAL
        } else if self.meets_region(va, va + size) {
            e == Error::EEXIST
        } else if self.first_conflict(mem, va, 0, size / 0x4000) is Some {
            self.first_conflict(mem, va, 0, size / 0x4000) == Some(e)
        } else {
            e == Error::ENOMEM && (frames.len() < size / 0x4000 || spare < 2 * pages_of(regions, k + 1))
        }
    }

    /// Whether the first regions of a list can be had: they are made of whole pages, and meet no region and
    /// no mapping.
    pub open spec fn list_free(self, mem: TableMemory, regions: Seq<Region>, n: int) -> bool {
        forall|k: int| 0 <= k < n ==> self.region_free(mem, #[trigger] regions[k])
    }

    /// Whether a region is made of whole pages, and meets no region and no mapping.
    pub open spec fn region_free(self, mem: TableMemory, region: Region) -> bool {
        let va = region.address as int;
        let size = region.size as int;
        &&& size > 0
        &&& va % 0x4000 == 0
        &&& size % 0x4000 == 0
        &&& va + size <= u64::MAX
        &&& !self.meets_region(va, va + size)
        &&& self.first_conflict(mem, va, 0, size / 0x4000) is None
    }

    /// A range without conflicts has none where no more of its pages are mapped.
    proof fn lemma_fewer_conflicts(
        self,
        mem: TableMemory,
        other: FirmwareSpace,
        m: TableMemory,
        va: int,
        k: int,
        n: int,
    )
        requires
            0 <= k,
            va % 0x4000 == 0,
            self.first_conflict(mem, va, k, n) is None,
            forall|q: int|
                tables::in_tree(q) && Self::page_of(va) <= q < Self::page_of(va) + n
                    && tables::is_valid(#[trigger] other.entry(m, q)) ==> tables::is_valid(
                    self.entry(mem, q),
                ),
        ensures
            other.first_conflict(m, va, k, n) is None,
        decreases n - k,
    {
        if k < n {
            let v = va + k * 0x4000;
            let q = Self::page_of(v);
            assert(self.conflict(mem, v) is None);
            assert(tables::in_tree(q));
            assert(q == Self::page_of(va) + k);
            assert(other.conflict(m, v) is None);
            self.lemma_fewer_conflicts(mem, other, m, va, k + 1, n);
        }
    }

    /// A page of a region without conflicts is not mapped.
    pub(crate) proof fn lemma_page_unmapped(self, mem: TableMemory, va: int, k: int, n: int, q: int)
        requires
            0 <= k,
            va % 0x4000 == 0,
            self.first_conflict(mem, va, k, n) is None,
            Self::page_of(va) + k <= q < Self::page_of(va) + n,
        ensures
            !tables::is_valid(self.entry(mem, q)),
        decreases n - k,
    {
        let v = va + k * 0x4000;
        assert(self.conflict(mem, v) is None);
        assert(Self::page_of(v) == Self::page_of(va) + k);
        if q > Self::page_of(va) + k {
            self.lemma_page_unmapped(mem, va, k + 1, n, q);
        }
    }

    /// A region that can be had after others were could be had before.
    proof fn lemma_free_before(
        self,
        m0: TableMemory,
        other: FirmwareSpace,
        m: TableMemory,
        regions: Seq<Region>,
        n: int,
    )
        requires
            0 <= n < regions.len(),
            other.keeps(self),
            other.region_free(m, regions[n]),
            self.list_free(m0, regions, n),
            forall|q: int|
                tables::in_tree(q) && !in_list(regions, n, q) ==> #[trigger] other.entry(m, q)
                    == self.entry(m0, q),
        ensures
            self.list_free(m0, regions, n + 1),
    {
        let va = regions[n].address as int;
        let end = va + regions[n].size;
        let count = regions[n].size as int / 0x4000;
        if self.meets_region(va, end) {
            let i = choose|i: int|
                0 <= i < self.regions@.len() && (#[trigger] self.regions@[i]).va < end && va
                    < self.regions@[i].end();
            assert(other.regions@.contains(self.regions@[i]));
            let j = other.regions@.index_of(self.regions@[i]);
            assert(other.regions@[j] == self.regions@[i]);
        }
        assert forall|q: int|
            tables::in_tree(q) && Self::page_of(va) <= q < Self::page_of(va) + count
                && tables::is_valid(#[trigger] self.entry(m0, q)) implies tables::is_valid(
            other.entry(m, q),
        ) by {
            if in_list(regions, n, q) {
                let i = choose|i: int| 0 <= i < n && #[trigger] in_region(regions[i], q);
                assert(self.region_free(m0, regions[i]));
                self.lemma_page_unmapped(
                    m0,
                    regions[i].address as int,
                    0,
                    regions[i].size as int / 0x4000,
                    q,
                );
            }
        }
        other.lemma_fewer_conflicts(m, self, m0, va, 0, count);
        assert forall|k: int| 0 <= k < n + 1 implies self.region_free(m0, #[trigger] regions[k]) by {}
    }

    /// Conflicts depend on the entries alone.
    proof fn lemma_same_conflicts(
        self,
        mem: TableMemory,
        other: FirmwareSpace,
        m: TableMemory,
        va: int,
        k: int,
        n: int,
    )
        requires
            self.table.tree(mem) == other.table.tree(m),
        ensures
            self.first_conflict(mem, va, k, n) == other.first_conflict(m, va, k, n),
        decreases n - k,
    {
        if k < n {
            self.lemma_same_conflicts(mem, other, m, va, k + 1, n);
        }
    }

    /// Allocated regions stay allocated while no entry changes.
    pub(crate) proof fn lemma_region_stays(
        self,
        m0: TableMemory,
        after: FirmwareSpace,
        m: TableMemory,
        regions: Seq<Region>,
    )
        requires
            self.wf(m0),
            after.same_but_walked(self),
            after.table.tree(m).same_values(self.table.tree(m0)),
            after.table.tree(m).same_blocked(self.table.tree(m0)),
        ensures
            forall|k: int|
                0 <= k < regions.len() && self.shows(m0, #[trigger] regions[k]) ==> after.shows(
                    m,
                    regions[k],
                ),
    {
        assert forall|k: int| 0 <= k < regions.len() && self.shows(m0, #[trigger] regions[k]) implies after.shows(
            m,
            regions[k],
        ) by {
            let i = choose|i: int| #[trigger] self.shows_at(m0, i, regions[k]);
            let first = Self::page_of(regions[k].address as int);
            assert(self.regions@[i].wf());
            assert forall|q: int|
                first <= q < first + after.regions@[i].pages@.len() && !after.table.tree(m).blocked(
                    q,
                ) implies #[trigger] after.entry(m, q) == after.regions@[i].pages@[q - first]
                | Self::bits(regions[k].prot) by {
                assert(tables::in_tree(q));
                assert(after.table.tree(m).blocked(q) == self.table.tree(m0).blocked(q));
                assert(self.entry(m0, q) == self.regions@[i].pages@[q - first] | Self::bits(
                    regions[k].prot,
                ));
            }
            assert(after.shows_at(m, i, regions[k]));
        }
    }

    /// An allocated region stays allocated while another one is added.
    pub(crate) proof fn lemma_shows_kept(
        self,
        m0: TableMemory,
        f0: Seq<u64>,
        after: FirmwareSpace,
        m: TableMemory,
        f: Seq<u64>,
        added: Region,
        region: Region,
    )
        requires
            self.wf(m0),
            self.tables_kept(m0, after, m),
            self.allocated(
                m0,
                f0,
                after,
                m,
                f,
                added.address,
                added.size as int / 0x4000,
                added.prot,
            ),
            added.size > 0,
            added.size % 0x4000 == 0,
            self.shows(m0, region),
        ensures
            after.shows(m, region),
    {
        let n = added.size as int / 0x4000;
        let i = choose|i: int| #[trigger] self.shows_at(m0, i, region);
        let at = choose|at: int|
            {
                &&& 0 <= at <= self.regions@.len()
                &&& after.regions@ == #[trigger] self.regions@.insert(at, after.regions@[at])
                &&& after.regions@[at].va == added.address
                &&& after.regions@[at].pages@ == fwspace::popped(f0, n)
                &&& after.regions@[at].dirty@ == Seq::new(n as nat, |i: int| true)
                &&& after.regions@[at].pending
            };
        let j = if i < at {
            i
        } else {
            i + 1
        };
        assert(after.regions@[j] == self.regions@[i]);
        assert(after.regions@[j].wf());
        assert(after.regions@[at].wf());
        let first = Self::page_of(region.address as int);
        assert forall|q: int|
            first <= q < first + after.regions@[j].pages@.len() && !after.table.tree(m).blocked(q)
            implies #[trigger] after.entry(m, q) == after.regions@[j].pages@[q - first] | Self::bits(
            region.prot,
        ) by {
            assert(tables::in_tree(q));
            assert(!self.table.tree(m0).blocked(q));
            assert(self.entry(m0, q) == self.regions@[i].pages@[q - first] | Self::bits(region.prot));
            if j < at {
                assert(after.regions@[j].end() <= after.regions@[at].va);
            } else {
                assert(after.regions@[at].end() <= after.regions@[j].va);
            }
        }
        assert(after.shows_at(m, j, region));
    }

    /// An allocated region stays allocated while another one is tried in vain.
    proof fn lemma_shows_beside(
        self,
        m0: TableMemory,
        after: FirmwareSpace,
        m: TableMemory,
        tried: Region,
        region: Region,
    )
        requires
            self.wf(m0),
            self.tables_kept(m0, after, m),
            after.same_but_walked(self),
            tried.address % 0x4000 == 0,
            tried.size > 0,
            tried.size % 0x4000 == 0,
            !self.meets_region(tried.address as int, tried.address + tried.size),
            forall|q: int|
                tables::in_tree(q) ==> #[trigger] after.entry(m, q) == self.entry(m0, q) || in_region(
                    tried,
                    q,
                ),
            self.shows(m0, region),
        ensures
            after.shows(m, region),
    {
        let i = choose|i: int| #[trigger] self.shows_at(m0, i, region);
        let held = self.regions@[i];
        assert(held.wf());
        let first = Self::page_of(region.address as int);
        assert(!(held.va < tried.address + tried.size && tried.address < held.end()));
        assert forall|q: int| first <= q < first + held.pages@.len() && !after.table.tree(m).blocked(q)
            implies #[trigger] after.entry(m, q) == held.pages@[q - first] | Self::bits(region.prot) by {
            assert(tables::in_tree(q));
            assert(!self.table.tree(m0).blocked(q));
            assert(self.entry(m0, q) == held.pages@[q - first] | Self::bits(region.prot));
            assert(!in_region(tried, q));
        }
        assert(after.shows_at(m, i, region));
    }

    /// A region that was added is allocated.
    pub(crate) proof fn lemma_shows_added(
        self,
        m0: TableMemory,
        f0: Seq<u64>,
        after: FirmwareSpace,
        m: TableMemory,
        f: Seq<u64>,
        added: Region,
    )
        requires
            self.wf(m0),
            self.tables_kept(m0, after, m),
            self.allocated(
                m0,
                f0,
                after,
                m,
                f,
                added.address,
                added.size as int / 0x4000,
                added.prot,
            ),
            added.size > 0,
            added.size % 0x4000 == 0,
        ensures
            after.shows(m, added),
            after.keeps(self),
    {
        let n = added.size as int / 0x4000;
        let at = choose|at: int|
            {
                &&& 0 <= at <= self.regions@.len()
                &&& after.regions@ == #[trigger] self.regions@.insert(at, after.regions@[at])
                &&& after.regions@[at].va == added.address
                &&& after.regions@[at].pages@ == fwspace::popped(f0, n)
                &&& after.regions@[at].dirty@ == Seq::new(n as nat, |i: int| true)
                &&& after.regions@[at].pending
            };
        assert(after.regions@[at].wf());
        let first = Self::page_of(added.address as int);
        assert forall|q: int|
            first <= q < first + after.regions@[at].pages@.len() && !after.table.tree(m).blocked(q)
            implies #[trigger] after.entry(m, q) == after.regions@[at].pages@[q - first] | Self::bits(
            added.prot,
        ) by {
            assert(tables::in_tree(q));
            assert(!self.table.tree(m0).blocked(q));
        }
        assert(after.shows_at(m, at, added));
        assert forall|i: int| 0 <= i < self.regions@.len() implies after.regions@.contains(
            #[trigger] self.regions@[i],
        ) by {
            if i < at {
                assert(after.regions@[i] == self.regions@[i]);
            } else {
                assert(after.regions@[i + 1] == self.regions@[i]);
            }
        }
    }

    /// Allocates the regions of a list, in order. Where one cannot be had, those before it stay.
    pub fn allocate_all(
        &mut self,
        mem: &mut TableMemory,
        frames: &mut Vec<u64>,
        regions: &Vec<Region>,
    ) -> (out: Result<(), Error>)
        requires
            old(self).wf(*old(mem)),
            space::frames_ok(old(frames)@),
        ensures
            old(self).tables_kept(*old(mem), *final(self), *final(mem)),
            final(self).keeps(*old(self)),
            final(self).external@ == old(self).external@,
            old(self).queue_ok() ==> final(self).queue_ok(),
            space::frames_ok(final(frames)@),
            forall|q: int|
                tables::in_tree(q) && !in_list(regions@, regions@.len() as int, q)
                    ==> #[trigger] final(self).entry(*final(mem), q) == old(self).entry(*old(mem), q),
            match out {
                Ok(_) => {
                    &&& old(self).list_free(*old(mem), regions@, regions@.len() as int)
                    &&& final(self).shows_all(*final(mem), regions@, regions@.len() as int)
                    &&& pages_of(regions@, regions@.len() as int) <= old(frames)@.len()
                    &&& final(frames)@ == old(frames)@.take(
                        old(frames)@.len() - pages_of(regions@, regions@.len() as int),
                    )
                    &&& final(mem).free@.len() + 2 * pages_of(regions@, regions@.len() as int)
                        >= old(mem).free@.len()
                },
                Err(e) => exists|k: int|
                    {
                        &&& #[trigger] final(self).stops_at(
                            *final(mem),
                            final(frames)@,
                            old(mem).free@.len() as int,
                            regions@,
                            k,
                            e,
                        )
                        &&& final(frames)@ == old(frames)@.take(
                            old(frames)@.len() - pages_of(regions@, k),
                        )
                    },
            },
    {
        let ghost s0 = *self;
        let ghost m0 = *mem;
        let ghost f0 = frames@;
        let mut k: usize = 0;
        proof {
            assert(f0.take(f0.len() as int) =~= f0);
            walk::lemma_framed_refl(self.table.tree(*mem));
            assert(self.keeps(s0)) by {
                assert forall|i: int| 0 <= i < s0.regions@.len() implies self.regions@.contains(
                    #[trigger] s0.regions@[i],
                ) by {
                    assert(self.regions@[i] == s0.regions@[i]);
                }
            }
        }
        while k < regions.len()
            invariant
                k <= regions@.len(),
                s0 == *old(self),
                m0 == *old(mem),
                f0 == old(frames)@,
                s0.tables_kept(m0, *self, *mem),
                self.keeps(s0),
                s0.queue_ok() ==> self.queue_ok(),
                self.external@ == s0.external@,
                self.shows_all(*mem, regions@, k as int),
                s0.list_free(m0, regions@, k as int),
                space::frames_ok(frames@),
                0 <= pages_of(regions@, k as int) <= f0.len(),
                frames@ == f0.take(f0.len() - pages_of(regions@, k as int)),
                mem.free@.len() + 2 * pages_of(regions@, k as int) >= m0.free@.len(),
                forall|q: int|
                    tables::in_tree(q) && !in_list(regions@, k as int, q) ==> #[trigger] self.entry(
                        *mem,
                        q,
                    ) == s0.entry(m0, q),
            decreases regions@.len() - k,
        {
            let ghost s1 = *self;
            let ghost m1 = *mem;
            let ghost f1 = frames@;
            let region: &Region = &regions[k];
            let ghost n = region.size as int / 0x4000;
            let done: Result<(), Error> = self.allocate(
                mem,
                frames,
                region.address,
                region.size,
                region.prot,
            );
            proof {
                if mem.map() == m1.map() && self.same_but_walked(s1) {
                    assert(self.table.tree(*mem) == s1.table.tree(m1));
                    walk::lemma_framed_refl(s1.table.tree(m1));
                }
                fwspace::lemma_kept_trans(s0, m0, s1, m1, *self, *mem);
                assert(in_region(regions@[k as int], 0) == in_region(*region, 0));
                assert forall|q: int|
                    tables::in_tree(q) && !in_list(regions@, k + 1, q) implies #[trigger] self.entry(
                    *mem,
                    q,
                ) == s0.entry(m0, q) by {
                    assert(!in_region(regions@[k as int], q));
                    if in_list(regions@, k as int, q) {
                        let i = choose|i: int| 0 <= i < k && #[trigger] in_region(regions@[i], q);
                        assert(in_region(regions@[i], q));
                    }
                    assert(s1.entry(m1, q) == s0.entry(m0, q));
                    if mem.map() == m1.map() && self.same_but_walked(s1) {
                        assert(self.table.tree(*mem) == s1.table.tree(m1));
                    }
                }
            }
            match done {
                Err(e) => {
                    proof {
                        assert forall|j: int| 0 <= j < k implies self.shows(
                            *mem,
                            #[trigger] regions@[j],
                        ) by {
                            assert(s1.shows(m1, regions@[j]));
                            if mem.map() == m1.map() {
                                assert(self.table.tree(*mem) == s1.table.tree(m1));
                                let i = choose|i: int| #[trigger] s1.shows_at(m1, i, regions@[j]);
                                let first = Self::page_of(regions@[j].address as int);
                                assert forall|q: int|
                                    first <= q < first + self.regions@[i].pages@.len()
                                        && !self.table.tree(*mem).blocked(q)
                                    implies #[trigger] self.entry(*mem, q)
                                    == self.regions@[i].pages@[q - first] | Self::bits(
                                    regions@[j].prot,
                                ) by {
                                    assert(s1.entry(m1, q) == s1.regions@[i].pages@[q - first]
                                        | Self::bits(regions@[j].prot));
                                }
                                assert(self.shows_at(*mem, i, regions@[j]));
                            } else {
                                s1.lemma_shows_beside(m1, *self, *mem, *region, regions@[j]);
                            }
                        }
                        assert forall|q: int|
                            tables::in_tree(q) && !in_list(regions@, regions@.len() as int, q)
                            implies #[trigger] self.entry(*mem, q) == s0.entry(m0, q) by {
                            if in_list(regions@, k + 1, q) {
                                let i = choose|i: int|
                                    0 <= i < k + 1 && #[trigger] in_region(regions@[i], q);
                                assert(in_region(regions@[i], q));
                            }
                        }
                        assert(pages_of(regions@, k + 1) == pages_of(regions@, k as int) + n);
                        if mem.map() == m1.map() {
                            assert(self.table.tree(*mem) == s1.table.tree(m1));
                            self.lemma_same_conflicts(*mem, s1, m1, region.address as int, 0, n);
                        }
                        if s1.region_free(m1, *region) && f1.len() >= n {
                            assert(!tables::is_valid(0u64)) by {
                                assert(0u64 & 3 != 3) by (bit_vector);
                            }
                            s1.lemma_fewer_conflicts(m1, *self, *mem, region.address as int, 0, n);
                        }
                        assert(self.stops_at(
                            *mem,
                            frames@,
                            m0.free@.len() as int,
                            regions@,
                            k as int,
                            e,
                        ));
                    }
                    return Err(e);
                },
                Ok(()) => {},
            }
            proof {
                s0.lemma_free_before(m0, s1, m1, regions@, k as int);
                s1.lemma_shows_added(m1, f1, *self, *mem, frames@, *region);
                if s0.queue_ok() {
                    fwspace_ext::lemma_allocation_queued(
                        s1,
                        m1,
                        f1,
                        *self,
                        *mem,
                        frames@,
                        region.address,
                        n,
                        region.prot,
                    );
                }
                assert forall|j: int| 0 <= j < k + 1 implies self.shows(*mem, #[trigger] regions@[j]) by {
                    if j < k {
                        assert(s1.shows(m1, regions@[j]));
                        s1.lemma_shows_kept(m1, f1, *self, *mem, frames@, *region, regions@[j]);
                    }
                }
                assert forall|i: int| 0 <= i < s0.regions@.len() implies self.regions@.contains(
                    #[trigger] s0.regions@[i],
                ) by {
                    let j = s1.regions@.index_of(s0.regions@[i]);
                    assert(s1.regions@.contains(s0.regions@[i]));
                    assert(s1.regions@[j] == s0.regions@[i]);
                    assert(self.regions@.contains(s1.regions@[j]));
                }
                assert(pages_of(regions@, k + 1) == pages_of(regions@, k as int) + n);
                assert(frames@ =~= f0.take(f0.len() - pages_of(regions@, k + 1)));
            }
            k += 1;
        }
        Ok(())
    }
}

impl Session {
    /// Leases a work item. Storage is allocated for a batch of them where none is left. Where that
    /// fails, the addresses of the batch are lost: no part of them is handed out later.
    pub fn allocate_work(
        &mut self,
        firmware: &mut FirmwareSpace,
        mem: &mut TableMemory,
        frames: &mut Vec<u64>,
        render: bool,
    ) -> (out: Result<u64, Error>)
        requires
            old(self).works.whole(),
            old(firmware).wf(*old(mem)),
            space::frames_ok(old(frames)@),
        ensures
            *final(self) == (Session { works: final(self).works, ..*old(self) }),
            final(self).works.whole(),
            final(self).works.arena(!render) == old(self).works.arena(!render),
            old(firmware).tables_kept(*old(mem), *final(firmware), *final(mem)),
            final(firmware).keeps(*old(firmware)),
            final(firmware).external@ == old(firmware).external@,
            old(firmware).queue_ok() ==> final(firmware).queue_ok(),
            space::frames_ok(final(frames)@),
            forall|q: int|
                tables::in_tree(q) && !in_list(
                    works::claim_regions(old(self).works.next as int, render, 16),
                    works::claim_regions(old(self).works.next as int, render, 16).len() as int,
                    q,
                ) ==> #[trigger] final(firmware).entry(*final(mem), q) == old(firmware).entry(
                    *old(mem),
                    q,
                ),
            ({
                let arena = old(self).works.arena(render);
                let after = final(self).works.arena(render);
                let size = stride(render) as int;
                let base = old(self).works.next;
                if !arena.used_up() {
                    &&& out is Ok
                    &&& arena.leased_one(after, out->Ok_0, size)
                    &&& final(self).works.next == base
                    &&& *final(firmware) == *old(firmware)
                    &&& *final(mem) == *old(mem)
                    &&& final(frames)@ == old(frames)@
                } else {
                    let batch = works::claim_regions(base as int, render, 16);
                    match out {
                        Ok(va) => {
                            &&& va == base
                            &&& final(self).works.next == base + 16 * size
                            &&& after.free@.len() == 0
                            &&& after.start == base + size
                            &&& after.end == base + 16 * size
                            &&& old(firmware).list_free(*old(mem), batch, batch.len() as int)
                            &&& final(firmware).shows_all(*final(mem), batch, batch.len() as int)
                            &&& pages_of(batch, batch.len() as int) <= old(frames)@.len()
                            &&& final(frames)@ == old(frames)@.take(
                                old(frames)@.len() - pages_of(batch, batch.len() as int),
                            )
                        },
                        Err(e) => {
                            &&& after.used_up()
                            &&& after.start == arena.start
                            &&& if base + 16 * size > u64::MAX {
                                &&& e == Error::ENOSPC
                                &&& final(self).works.next == base
                                &&& *final(firmware) == *old(firmware)
                                &&& *final(mem) == *old(mem)
                            } else {
                                &&& final(self).works.next == base + 16 * size
                                &&& exists|k: int|
                                    {
                                        &&& #[trigger] final(firmware).stops_at(
                                            *final(mem),
                                            final(frames)@,
                                            old(mem).free@.len() as int,
                                            batch,
                                            k,
                                            e,
                                        )
                                        &&& final(frames)@ == old(frames)@.take(
                                            old(frames)@.len() - pages_of(batch, k),
                                        )
                                    }
                            }
                        },
                    }
                }
            }),
    {
        match self.works.take(render) {
            Some(va) => {
                proof {
                    lemma_keeps_itself(*firmware);
                    walk::lemma_framed_refl(firmware.table.tree(*mem));
                }
                return Ok(va);
            },
            None => {},
        }
        let ghost middle = self.works;
        let base: u64 = match self.works.claim(render) {
            Err(e) => {
                proof {
                    lemma_keeps_itself(*firmware);
                    walk::lemma_framed_refl(firmware.table.tree(*mem));
                }
                return Err(e);
            },
            Ok(base) => base,
        };
        let regions: Vec<Region> = Works::regions(base, render);
        match firmware.allocate_all(mem, frames, &regions) {
            Err(e) => {
                return Err(e);
            },
            Ok(()) => {},
        }
        self.works.refill(render, base);
        Ok(self.works.take(render).unwrap())
    }
}

/// The regions of queues at a base address.
pub open spec fn lane_list(base: int) -> Seq<Region> {
    Seq::new(
        6,
        |i: int|
            {
                let lane = lanes::lane_at(base, i / 2);
                if i % 2 == 0 {
                    Region { address: lane.queue, size: 0x4000, prot: prot_fw_priv_rw() }
                } else {
                    Region { address: lane.pointers, size: 0x8000, prot: prot_fw_shared_rw() }
                }
            },
    )
}

/// What leasing the events of a queue comes to: a queue with unfinished work has them already, else it
/// gets the first triple that is free.
pub open spec fn events_leased(
    before: FirmwareQueues,
    after: FirmwareQueues,
    used: u64,
    left: u64,
    out: Result<(), Error>,
) -> bool {
    match before.events {
        Some(_) => out is Ok && after.events == before.events && left == used,
        None => match out {
            Ok(_) => {
                &&& after.events matches Some(index)
                &&& !slots::leased(used, index as int)
                &&& forall|i: int| 0 <= i < index ==> #[trigger] slots::leased(used, i)
                &&& left == with_slot(used, index)
            },
            Err(e) => {
                &&& e == Error::EBUSY
                &&& after.events is None
                &&& left == used
                &&& forall|i: int| 0 <= i < 32 ==> #[trigger] slots::leased(used, i)
            },
        },
    }
}

impl Session {
    /// Readies the queues of a client for a submission: they get storage once, and events for as long as
    /// they have unfinished work. Answers what is to be stored, whatever the outcome.
    pub fn prepare_queues(
        &mut self,
        firmware: &mut FirmwareSpace,
        mem: &mut TableMemory,
        frames: &mut Vec<u64>,
        queue: &mut FirmwareQueues,
    ) -> (out: (Vec<Write>, Result<(), Error>))
        requires
            old(self).works.next >= WORK_BASE,
            old(queue).wf(),
            old(queue).priority <= 3,
            old(firmware).wf(*old(mem)),
            space::frames_ok(old(frames)@),
        ensures
            *final(self) == (Session {
                works: final(self).works,
                queue_events: final(self).queue_events,
                ..*old(self)
            }),
            final(self).works == (Works { next: final(self).works.next, ..old(self).works }),
            final(queue).wf(),
            *final(queue) == (FirmwareQueues {
                lanes: final(queue).lanes,
                events: final(queue).events,
                ..*old(queue)
            }),
            old(firmware).tables_kept(*old(mem), *final(firmware), *final(mem)),
            final(firmware).keeps(*old(firmware)),
            final(firmware).external@ == old(firmware).external@,
            old(firmware).queue_ok() ==> final(firmware).queue_ok(),
            space::frames_ok(final(frames)@),
            forall|q: int|
                tables::in_tree(q) && !in_list(lane_list(old(self).works.next as int), 6, q)
                    ==> #[trigger] final(firmware).entry(*final(mem), q) == old(firmware).entry(
                    *old(mem),
                    q,
                ),
            final(queue).lanes is Some ==> events_leased(
                *old(queue),
                *final(queue),
                old(self).queue_events,
                final(self).queue_events,
                out.1,
            ),
            ({
                let base = old(self).works.next;
                let fits = base + LANES_SIZE <= u64::MAX;
                if old(queue).lanes is Some {
                    &&& final(queue).lanes == old(queue).lanes
                    &&& out.0@.len() == 0
                    &&& final(self).works.next == base
                    &&& *final(firmware) == *old(firmware)
                    &&& *final(mem) == *old(mem)
                    &&& final(frames)@ == old(frames)@
                } else if final(queue).lanes is None {
                    &&& out.0@.len() == 0
                    &&& *final(queue) == *old(queue)
                    &&& final(self).queue_events == old(self).queue_events
                    &&& out.1 is Err
                    &&& if fits {
                        &&& final(self).works.next == base + LANES_SIZE
                        &&& exists|k: int|
                            {
                                &&& #[trigger] final(firmware).stops_at(
                                    *final(mem),
                                    final(frames)@,
                                    old(mem).free@.len() as int,
                                    lane_list(base as int),
                                    k,
                                    out.1->Err_0,
                                )
                                &&& final(frames)@ == old(frames)@.take(
                                    old(frames)@.len() - pages_of(lane_list(base as int), k),
                                )
                            }
                    } else {
                        &&& out.1->Err_0 == Error::ENOSPC
                        &&& *final(self) == *old(self)
                        &&& *final(firmware) == *old(firmware)
                        &&& *final(mem) == *old(mem)
                    }
                } else {
                    &&& fits
                    &&& final(self).works.next == base + LANES_SIZE
                    &&& forall|stage: int|
                        0 <= stage < 3 ==> #[trigger] final(queue).lanes->0@[stage] == lanes::lane_at(
                            base as int,
                            stage,
                        )
                    &&& old(firmware).list_free(*old(mem), lane_list(base as int), 6)
                    &&& final(firmware).shows_all(*final(mem), lane_list(base as int), 6)
                    &&& old(frames)@.len() >= 9
                    &&& final(frames)@ == old(frames)@.take(old(frames)@.len() - 9)
                    &&& plan::stored(out.0@) == lanes::queue_writes(
                        final(queue).lanes->0@,
                        old(queue).priority,
                        old(queue).render_count,
                        old(queue).compute_count,
                    )
                }
            }),
    {
        let ghost base = self.works.next as int;
        let mut writes: Vec<Write> = Vec::new();
        proof {
            lemma_keeps_itself(*firmware);
            walk::lemma_framed_refl(firmware.table.tree(*mem));
        }
        match self.claim_lanes(queue) {
            Err(e) => {
                return (writes, Err(e));
            },
            Ok(None) => {},
            Ok(Some(claimed)) => {
                let all: [Region; 6] = lane_regions(&claimed);
                let mut regions: Vec<Region> = Vec::new();
                let mut i: usize = 0;
                while i < 6
                    invariant
                        i <= 6,
                        regions@ == all@.take(i as int),
                    decreases 6 - i,
                {
                    regions.push(all[i]);
                    i += 1;
                    assert(regions@ =~= all@.take(i as int));
                }
                proof {
                    assert(claimed@[0] == lanes::lane_at(base, 0));
                    assert(claimed@[1] == lanes::lane_at(base, 1));
                    assert(claimed@[2] == lanes::lane_at(base, 2));
                    assert(all@[0] == lane_list(base)[0] && all@[1] == lane_list(base)[1]);
                    assert(all@[2] == lane_list(base)[2] && all@[3] == lane_list(base)[3]);
                    assert(all@[4] == lane_list(base)[4] && all@[5] == lane_list(base)[5]);
                    assert(regions@ =~= lane_list(base));
                    reveal_with_fuel(pages_of, 7);
                    assert(pages_of(regions@, 6) == 9);
                }
                match firmware.allocate_all(mem, frames, &regions) {
                    Err(e) => {
                        return (writes, Err(e));
                    },
                    Ok(()) => {},
                }
                match queue.objects(&claimed) {
                    Err(e) => {
                        return (writes, Err(e));
                    },
                    Ok(stores) => {
                        writes = stores;
                    },
                }
                queue.lanes = Some(claimed);
            },
        }
        match queue.lease_events(self.queue_events) {
            Err(e) => (writes, Err(e)),
            Ok(left) => {
                self.queue_events = left;
                (writes, Ok(()))
            },
        }
    }
}

/// A state keeps what it has.
pub(crate) proof fn lemma_keeps_itself(space: FirmwareSpace)
    ensures
        space.keeps(space),
{
    assert forall|i: int| 0 <= i < space.regions@.len() implies space.regions@.contains(
        #[trigger] space.regions@[i],
    ) by {
        assert(space.regions@[i] == space.regions@[i]);
    }
}

} // verus!
