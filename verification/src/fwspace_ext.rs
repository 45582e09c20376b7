//! Borrowed apertures of the firmware's address space, and the end of regions.
use crate::error::Error;
use crate::fwspace;
use crate::fwspace::{FirmwareRegion, FirmwareSpace, FIRMWARE_START};
use crate::fwspace_io;
use crate::prot::Prot;
use crate::space_alloc::Chunk;
use crate::tables;
use crate::tables::TableMemory;
use crate::walk;
use core::ops::Range;
use vstd::prelude::*;

verus! {

/// Whether an aperture is not wholly inside a range.
pub open spec fn outside(range: Range<u64>, aperture: (u64, u64)) -> bool {
    aperture.0 < range.start || aperture.1 > range.end
}

impl FirmwareSpace {
    /// The byte address behind an address.
    pub fn physical(&mut self, mem: &mut TableMemory, va: u64) -> (out: Result<u64, Error>)
        requires
            old(self).wf(*old(mem)),
        ensures
            final(self).wf(*final(mem)),
            final(self).same_but_walked(*old(self)),
            final(mem).map() == old(mem).map(),
            final(mem).free@ == old(mem).free@,
            out == if old(self).table.in_range(va) && old(self).table.translation(*old(mem), va)
                is Some {
                Ok(old(self).table.translation(*old(mem), va)->0)
            } else {
                Err::<u64, Error>(Error::EINVAL)
            },
    {
        match self.table.translate(mem, va) {
            Err(e) => Err(e),
            Ok(None) => Err(Error::EINVAL),
            Ok(Some(address)) => Ok(address),
        }
    }

    /// Borrows a hardware aperture. No ownership of physical pages is implied. The whole range is noted
    /// before it is mapped, so that a partial mapping unwinds too.
    pub fn map_external(
        &mut self,
        mem: &mut TableMemory,
        va: u64,
        pa: u64,
        size: u64,
        access: Prot,
    ) -> (out: Result<(), Error>)
        requires
            old(self).wf(*old(mem)),
            pa + size <= u64::MAX,
        ensures
            final(self).wf(*final(mem)),
            final(self).regions@ == old(self).regions@,
            final(self).dirty_regions@ == old(self).dirty_regions@,
            ({
                let n = size as int / 0x4000;
                let untouched = final(self).same_but_walked(*old(self)) && final(mem).map()
                    == old(mem).map() && final(mem).free@ == old(mem).free@;
                if size == 0 || va % 0x4000 != 0 || pa % 0x4000 != 0 || size % 0x4000 != 0 || va + size
                    > u64::MAX {
                    out == Err::<(), Error>(Error::EINVAL) && untouched
                } else if old(self).first_conflict(*old(mem), va as int, 0, n) is Some {
                    out == Err::<(), Error>(
                        old(self).first_conflict(*old(mem), va as int, 0, n)->0,
                    ) && untouched
                } else {
                    let t0 = old(self).table.tree(*old(mem));
                    let t = final(self).table.tree(*final(mem));
                    let lo = Self::page_of(va as int);
                    let edit = old(self).table.mapping(pa, access, false);
                    &&& old(self).tables_kept(*old(mem), *final(self), *final(mem))
                    &&& final(self).external@ == old(self).external@.push((va, (va + size) as u64))
                    &&& match out {
                        Ok(_) => {
                            &&& walk::outcome(t0, t, true, edit, lo, lo + n)
                            &&& old(mem).free@.len() - final(mem).free@.len() == walk::needed(
                                t0,
                                lo,
                                lo + n,
                            )
                        },
                        Err(e) => {
                            &&& e == Error::ENOMEM
                            &&& walk::needed(t0, lo, lo + n) > old(mem).free@.len()
                            &&& exists|stop: int|
                                lo <= stop < lo + n && #[trigger] walk::outcome(
                                    t0,
                                    t,
                                    true,
                                    edit,
                                    lo,
                                    stop,
                                )
                        },
                    }
                }
            }),
    {
        if size == 0 || va % 0x4000 != 0 || pa % 0x4000 != 0 || size % 0x4000 != 0 {
            return Err(Error::EINVAL);
        }
        let end: u64 = match va.checked_add(size) {
            None => {
                return Err(Error::EINVAL);
            },
            Some(end) => end,
        };
        let ghost s0 = *self;
        let ghost m0 = *mem;
        match self.find_conflict(mem, va, size / 0x4000) {
            Some(e) => {
                return Err(e);
            },
            None => {},
        }
        let ghost s1 = *self;
        let ghost m1 = *mem;
        let ghost lo = Self::page_of(va as int);
        let ghost n = size as int / 0x4000;
        assert(s1.table.tree(m1) == s0.table.tree(m0));
        self.external.push((va, end));
        proof {
            s1.lemma_range_of(m1, va, end);
            walk::lemma_visits_monotone(s0.table.tree(m0), true, lo, lo, lo + n);
        }
        let out = self.table.map_pages(mem, va..end, pa, access, false);
        proof {
            let t0 = s0.table.tree(m0);
            let t = self.table.tree(*mem);
            if out is Err {
                let stop = choose|stop: int|
                    {
                        &&& lo <= stop < lo + n
                        &&& walk::needed(t0, lo, stop) <= m0.free@.len() < walk::needed(
                            t0,
                            lo,
                            stop + 1,
                        )
                        &&& #[trigger] walk::outcome(
                            t0,
                            t,
                            true,
                            s0.table.mapping(pa, access, false),
                            lo,
                            stop,
                        )
                    };
                assert(t.same_blocked(t0));
            }
        }
        out
    }

    /// Ends the borrowing of the apertures inside a range.
    pub fn unmap_external(&mut self, mem: &mut TableMemory, range: Range<u64>) -> (out: Result<
        (),
        Error,
    >)
        requires
            old(self).wf(*old(mem)),
            FIRMWARE_START <= range.start <= range.end,
        ensures
            final(self).wf(*final(mem)),
            final(self).regions@ == old(self).regions@,
            final(self).dirty_regions@ == old(self).dirty_regions@,
            final(mem).free@ == old(mem).free@,
            if range.start % 0x4000 != 0 || range.end % 0x4000 != 0 {
                out == Err::<(), Error>(Error::EINVAL) && *final(self) == *old(self) && *final(mem)
                    == *old(mem)
            } else {
                &&& out is Ok
                &&& old(self).tables_kept(*old(mem), *final(self), *final(mem))
                &&& final(self).external@ == old(self).external@.filter(
                    |a: (u64, u64)| outside(range, a),
                )
                &&& forall|q: int|
                    tables::in_tree(q) ==> #[trigger] final(self).entry(*final(mem), q)
                        == if Self::page_of(range.start as int) <= q < Self::page_of(
                        range.end as int,
                    ) {
                        0
                    } else {
                        old(self).entry(*old(mem), q)
                    }
            },
    {
        if range.start % 0x4000 != 0 || range.end % 0x4000 != 0 {
            return Err(Error::EINVAL);
        }
        let ghost s0 = *self;
        self.unmap_range(mem, range.start, range.end);
        let ghost s1 = *self;
        let ghost all = self.external@;
        let ghost keep = |a: (u64, u64)| outside(range, a);
        let mut kept: Vec<(u64, u64)> = Vec::new();
        let mut i: usize = 0;
        proof {
            reveal(Seq::filter);
        }
        assert(all.take(0) =~= Seq::<(u64, u64)>::empty());
        while i < self.external.len()
            invariant
                i <= all.len(),
                all == self.external@,
                *self == s1,
                keep == (|a: (u64, u64)| outside(range, a)),
                kept@ == all.take(i as int).filter(keep),
            decreases all.len() - i,
        {
            let aperture: (u64, u64) = self.external[i];
            proof {
                assert(all.take(i + 1).drop_last() =~= all.take(i as int));
                assert(all.take(i + 1).last() == aperture);
                reveal(Seq::filter);
            }
            if aperture.0 < range.start || aperture.1 > range.end {
                kept.push(aperture);
            }
            i += 1;
        }
        assert(all.take(i as int) =~= all);
        self.external = kept;
        proof {
            assert(self.external@ == s0.external@.filter(|a: (u64, u64)| outside(range, a)));
            assert forall|q: int| tables::in_tree(q) implies #[trigger] self.entry(*mem, q)
                == s1.entry(*mem, q) by {}
        }
        Ok(())
    }

    /// Gives a region back, once its context is drained and its hardware roots are detached. Answers
    /// the frames that were behind it.
    pub fn release_region(&mut self, mem: &mut TableMemory, va: u64) -> (out: Result<Vec<u64>, Error>)
        requires
            old(self).wf(*old(mem)),
        ensures
            final(self).wf(*final(mem)),
            final(self).external@ == old(self).external@,
            old(self).queue_ok() ==> final(self).queue_ok(),
            match out {
                Ok(frames) => exists|i: int|
                    {
                        let region = old(self).regions@[i];
                        &&& 0 <= i < old(self).regions@.len()
                        &&& region.va == va
                        &&& frames@ == region.pages@
                        &&& final(self).regions@ == #[trigger] old(self).regions@.remove(i)
                        &&& final(self).dirty_regions@ == old(self).dirty_regions@.filter(
                            |pending: u64| pending != va,
                        )
                        &&& old(self).tables_kept(*old(mem), *final(self), *final(mem))
                        &&& forall|q: int|
                            tables::in_tree(q) ==> #[trigger] final(self).entry(*final(mem), q)
                                == if Self::page_of(va as int) <= q < Self::page_of(va as int)
                                + region.pages@.len() {
                                0
                            } else {
                                old(self).entry(*old(mem), q)
                            }
                    },
                Err(e) => {
                    &&& e == Error::EINVAL
                    &&& !old(self).has_region(va)
                    &&& *final(self) == *old(self)
                    &&& *final(mem) == *old(mem)
                },
            },
    {
        let ghost s0 = *self;
        let ghost m0 = *mem;
        let mut i: usize = 0;
        while i < self.regions.len() && self.regions[i].va != va
            invariant
                i <= self.regions@.len(),
                *self == s0,
                forall|j: int| 0 <= j < i ==> (#[trigger] self.regions@[j]).va != va,
            decreases self.regions@.len() - i,
        {
            i += 1;
        }
        if i == self.regions.len() {
            return Err(Error::EINVAL);
        }
        assert(self.regions@[i as int].wf());
        let count: u64 = self.regions[i].pages.len() as u64;
        self.unmap_range(mem, va, va + count * 0x4000);
        let ghost s1 = *self;
        let ghost m1 = *mem;
        let ghost all = self.dirty_regions@;
        let ghost keep = |pending: u64| pending != va;
        let mut kept: Vec<u64> = Vec::new();
        let mut k: usize = 0;
        proof {
            reveal(Seq::filter);
        }
        assert(all.take(0) =~= Seq::<u64>::empty());
        while k < self.dirty_regions.len()
            invariant
                k <= all.len(),
                all == self.dirty_regions@,
                *self == s1,
                keep == (|pending: u64| pending != va),
                kept@ == all.take(k as int).filter(keep),
            decreases all.len() - k,
        {
            let pending: u64 = self.dirty_regions[k];
            proof {
                assert(all.take(k + 1).drop_last() =~= all.take(k as int));
                assert(all.take(k + 1).last() == pending);
                reveal(Seq::filter);
            }
            if pending != va {
                kept.push(pending);
            }
            k += 1;
        }
        assert(all.take(k as int) =~= all);
        self.dirty_regions = kept;
        let region = self.regions.remove(i);
        proof {
            lemma_ordered_remove(s0.regions@, i as int);
            assert(self.dirty_regions@ == s0.dirty_regions@.filter(|pending: u64| pending != va));
            assert(self.regions@ == s0.regions@.remove(i as int));
            assert(Self::page_of(va + count * 0x4000) == Self::page_of(va as int) + count);
            assert forall|q: int| tables::in_tree(q) implies #[trigger] self.entry(*mem, q)
                == s1.entry(m1, q) by {}
            if s0.queue_ok() {
                self.lemma_queue_removed(s0, i as int, va);
            }
        }
        Ok(region.pages)
    }

    /// Removing a region from the queue and from the regions keeps the queue in step.
    proof fn lemma_queue_removed(self, s0: FirmwareSpace, i: int, va: u64)
        requires
            s0.queue_ok(),
            fwspace::ordered(s0.regions@),
            0 <= i < s0.regions@.len(),
            s0.regions@[i].va == va,
            self.regions@ == s0.regions@.remove(i),
            self.dirty_regions@ == s0.dirty_regions@.filter(|pending: u64| pending != va),
        ensures
            self.queue_ok(),
    {
        let keep = |pending: u64| pending != va;
        let q0 = s0.dirty_regions@;
        let q = self.dirty_regions@;
        assert forall|k: int| 0 <= k < q.len() implies self.has_region(#[trigger] q[k]) by {
            assert(q.contains(q[k]));
            q0.lemma_filter_contains_rev(keep, q[k]);
            q0.lemma_filter_pred(keep, k);
            let m = choose|m: int| 0 <= m < q0.len() && q0[m] == q[k];
            assert(s0.has_region(q0[m]));
            let j = choose|j: int|
                0 <= j < s0.regions@.len() && (#[trigger] s0.regions@[j]).va == q[k];
            assert(j != i);
            if j < i {
                assert(self.regions@[j].va == q[k]);
            } else {
                assert(self.regions@[j - 1].va == q[k]);
            }
        }
        assert forall|j: int|
            0 <= j < self.regions@.len() && (#[trigger] self.regions@[j]).pending implies q.contains(
            self.regions@[j].va,
        ) by {
            let o = if j < i {
                j
            } else {
                j + 1
            };
            assert(self.regions@[j] == s0.regions@[o]);
            assert(s0.regions@[o].pending);
            assert(q0.contains(s0.regions@[o].va));
            assert(s0.regions@[i].wf() && s0.regions@[o].wf());
            if o < i {
                assert(s0.regions@[o].end() <= s0.regions@[i].va);
            } else {
                assert(s0.regions@[i].end() <= s0.regions@[o].va);
            }
            let m = choose|m: int| 0 <= m < q0.len() && q0[m] == s0.regions@[o].va;
            q0.lemma_filter_contains(keep, m);
        }
        assert forall|j: int, k: int|
            0 <= j < self.regions@.len() && 0 <= k < self.regions@[j].dirty@.len()
                && #[trigger] self.regions@[j].dirty@[k] implies self.regions@[j].pending by {
            let o = if j < i {
                j
            } else {
                j + 1
            };
            assert(self.regions@[j] == s0.regions@[o]);
            assert(s0.regions@[o].dirty@[k]);
        }
    }
}

/// Regions without one of them are in order.
proof fn lemma_ordered_remove(regions: Seq<FirmwareRegion>, i: int)
    requires
        fwspace::ordered(regions),
        0 <= i < regions.len(),
    ensures
        fwspace::ordered(regions.remove(i)),
{
    let next = regions.remove(i);
    assert forall|a: int| 0 <= a < next.len() implies (#[trigger] next[a]).wf() by {
        assert(next[a] == regions[if a < i {
            a
        } else {
            a + 1
        }]);
    }
    assert forall|a: int, b: int| 0 <= a < b < next.len() implies (#[trigger] next[a]).end() <= (
    #[trigger] next[b]).va by {
        assert(next[a] == regions[if a < i {
            a
        } else {
            a + 1
        }]);
        assert(next[b] == regions[if b < i {
            b
        } else {
            b + 1
        }]);
    }
}

/// Every byte of a write goes to the page and offset of its address in the region.
pub proof fn lemma_region_chunk_target(pages: Seq<u64>, offset: int, from: int, len: int, i: int)
    requires
        0 <= offset,
        0 <= from <= i < len <= u64::MAX,
        offset + (len - from) <= pages.len() * 0x4000,
    ensures
        exists|k: int|
            0 <= k < fwspace_io::region_chunks(pages, offset, from, len).len() && carried(
                pages,
                #[trigger] fwspace_io::region_chunks(pages, offset, from, len)[k],
                i,
                offset + (i - from),
            ),
    decreases len - from,
{
    let all = fwspace_io::region_chunks(pages, offset, from, len);
    let room = 0x4000 - offset % 0x4000;
    let size = if len - from < room {
        len - from
    } else {
        room
    };
    let at = offset + (i - from);
    if i < from + size {
        assert(at / 0x4000 == offset / 0x4000);
        assert(carried(pages, all[0], i, at));
    } else {
        lemma_region_chunk_target(pages, offset + size, from + size, len, i);
        let rest = fwspace_io::region_chunks(pages, offset + size, from + size, len);
        let k = choose|k: int|
            0 <= k < rest.len() && carried(
                pages,
                #[trigger] fwspace_io::region_chunks(pages, offset + size, from + size, len)[k],
                i,
                offset + size + (i - (from + size)),
            );
        assert(all[k + 1] == rest[k]);
    }
}

/// Whether a part of a write takes byte `i` of the source to an offset of the region.
pub open spec fn carried(pages: Seq<u64>, chunk: Chunk, i: int, offset: int) -> bool {
    &&& chunk.from <= i < chunk.from + chunk.size
    &&& chunk.frame == pages[offset / 0x4000]
    &&& chunk.within + (i - chunk.from) == offset % 0x4000
}

/// An allocation is on the queue of the next synchronization.
pub proof fn lemma_allocation_queued(
    s0: FirmwareSpace,
    m0: TableMemory,
    f0: Seq<u64>,
    s: FirmwareSpace,
    m: TableMemory,
    f: Seq<u64>,
    va: u64,
    n: int,
    access: Prot,
)
    requires
        s0.queue_ok(),
        s0.allocated(m0, f0, s, m, f, va, n, access),
    ensures
        s.queue_ok(),
{
    let at = choose|at: int|
        {
            &&& 0 <= at <= s0.regions@.len()
            &&& s.regions@ == #[trigger] s0.regions@.insert(at, s.regions@[at])
            &&& s.regions@[at].va == va
            &&& s.regions@[at].pages@ == fwspace::popped(f0, n)
            &&& s.regions@[at].dirty@ == Seq::new(n as nat, |i: int| true)
            &&& s.regions@[at].pending
        };
    let q0 = s0.dirty_regions@;
    let q = s.dirty_regions@;
    assert(q[q0.len() as int] == va);
    assert forall|k: int| 0 <= k < q.len() implies s.has_region(#[trigger] q[k]) by {
        if k < q0.len() {
            assert(s0.has_region(q0[k]));
            let j = choose|j: int|
                0 <= j < s0.regions@.len() && (#[trigger] s0.regions@[j]).va == q0[k];
            if j < at {
                assert(s.regions@[j].va == q[k]);
            } else {
                assert(s.regions@[j + 1].va == q[k]);
            }
        } else {
            assert(s.regions@[at].va == q[k]);
        }
    }
    assert forall|j: int|
        0 <= j < s.regions@.len() && (#[trigger] s.regions@[j]).pending implies q.contains(
        s.regions@[j].va,
    ) by {
        if j != at {
            let o = if j < at {
                j
            } else {
                j - 1
            };
            assert(s.regions@[j] == s0.regions@[o]);
            assert(s0.regions@[o].pending);
            let k = choose|k: int| 0 <= k < q0.len() && q0[k] == s0.regions@[o].va;
            assert(q[k] == s.regions@[j].va);
        }
    }
    assert forall|j: int, k: int|
        0 <= j < s.regions@.len() && 0 <= k < s.regions@[j].dirty@.len()
            && #[trigger] s.regions@[j].dirty@[k] implies s.regions@[j].pending by {
        if j != at {
            let o = if j < at {
                j
            } else {
                j - 1
            };
            assert(s.regions@[j] == s0.regions@[o]);
            assert(s0.regions@[o].dirty@[k]);
        }
    }
}

} // verus!
