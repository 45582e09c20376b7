//! Accesses to the firmware's address space: where each byte goes, and what has to be published.
use crate::error::Error;
use crate::fwspace;
use crate::fwspace::{FirmwareRegion, FirmwareSpace};
use crate::space_alloc::Chunk;
use vstd::prelude::*;

verus! {

/// A part of a live write that lies in one page: where it goes, which bytes of the source it is, and
/// the cache lines to clean behind it. Lines of a page without unpublished writes are invalidated
/// first, so that neighbouring firmware bytes are preserved.
#[derive(Clone, Copy, Debug, PartialEq, Eq, Structural)]
pub struct LiveChunk {
    pub frame: u64,
    pub within: u64,
    pub limit: u64,
    pub from: u64,
    pub invalidate: bool,
    pub clean_from: u64,
    pub clean_to: u64,
}

/// The parts of a write to a region.
pub open spec fn region_chunks(pages: Seq<u64>, offset: int, from: int, len: int) -> Seq<Chunk>
    decreases len - from,
{
    if from >= len || offset < 0 {
        Seq::empty()
    } else {
        let room = 0x4000 - offset % 0x4000;
        let size = if len - from < room {
            len - from
        } else {
            room
        };
        seq![
            Chunk {
                frame: pages[offset / 0x4000],
                within: (offset % 0x4000) as u64,
                from: from as u64,
                size: size as u64,
            },
        ] + region_chunks(pages, offset + size, from + size, len)
    }
}

/// Whether a write touches a page.
pub open spec fn touches(offset: int, len: int, page: int) -> bool {
    len > 0 && page * 0x4000 < offset + len && offset < (page + 1) * 0x4000
}

/// The part of a live write that lies in the `k`-th page it touches.
pub open spec fn live_chunk(region: FirmwareRegion, offset: int, len: int, k: int) -> LiveChunk {
    let index = offset / 0x4000 + k;
    let base = index * 0x4000;
    let within = if offset > base {
        offset - base
    } else {
        0
    };
    let limit = if offset + len - base < 0x4000 {
        offset + len - base
    } else {
        0x4000
    };
    let dirty = region.dirty@[index];
    LiveChunk {
        frame: region.pages@[index],
        within: within as u64,
        limit: limit as u64,
        from: (base + within - offset) as u64,
        invalidate: !dirty,
        clean_from: if dirty {
            0
        } else {
            (within / 64 * 64) as u64
        },
        clean_to: if dirty {
            0x4000
        } else {
            limit as u64
        },
    }
}

/// Number of pages that a write touches.
pub open spec fn touched_pages(offset: int, len: int) -> int {
    if len > 0 {
        (offset + len - 1) / 0x4000 - offset / 0x4000 + 1
    } else {
        0
    }
}

/// Same places and pages.
pub open spec fn same_shape(a: Seq<FirmwareRegion>, b: Seq<FirmwareRegion>) -> bool {
    &&& a.len() == b.len()
    &&& forall|i: int| 0 <= i < a.len() ==> (#[trigger] a[i]).va == b[i].va
    &&& forall|i: int| 0 <= i < a.len() ==> (#[trigger] a[i]).pages@ == b[i].pages@
    &&& forall|i: int| 0 <= i < a.len() ==> (#[trigger] a[i]).dirty@.len() == b[i].dirty@.len()
}

/// All regions but one are the same.
pub open spec fn same_others(a: Seq<FirmwareRegion>, b: Seq<FirmwareRegion>, i: int) -> bool {
    forall|j: int| 0 <= j < a.len() && j != i ==> (#[trigger] a[j]) == b[j]
}

impl FirmwareSpace {
    /// The queue names regions, holds every region that is pending, and every region with unpublished
    /// pages is pending.
    pub open spec fn queue_ok(self) -> bool {
        &&& forall|k: int|
            0 <= k < self.dirty_regions@.len() ==> self.has_region(#[trigger] self.dirty_regions@[k])
        &&& forall|i: int|
            0 <= i < self.regions@.len() && (#[trigger] self.regions@[i]).pending
                ==> self.dirty_regions@.contains(self.regions@[i].va)
        &&& forall|i: int, k: int|
            0 <= i < self.regions@.len() && 0 <= k < self.regions@[i].dirty@.len()
                && #[trigger] self.regions@[i].dirty@[k] ==> self.regions@[i].pending
    }

    /// Whether a region starts at an address.
    pub open spec fn has_region(self, va: u64) -> bool {
        exists|i: int| 0 <= i < self.regions@.len() && (#[trigger] self.regions@[i]).va == va
    }

    /// Puts a region on the queue of the next synchronization.
    fn queue_region(&mut self, i: usize)
        requires
            fwspace::ordered(old(self).regions@),
            i < old(self).regions@.len(),
        ensures
            final(self).table == old(self).table,
            final(self).external@ == old(self).external@,
            same_shape(old(self).regions@, final(self).regions@),
            same_others(old(self).regions@, final(self).regions@, i as int),
            final(self).regions@[i as int].pending,
            final(self).regions@[i as int].dirty@ == old(self).regions@[i as int].dirty@,
            final(self).dirty_regions@ == if old(self).regions@[i as int].pending {
                old(self).dirty_regions@
            } else {
                old(self).dirty_regions@.push(old(self).regions@[i as int].va)
            },
            old(self).queue_ok() ==> final(self).queue_ok(),
    {
        let ghost s0 = *self;
        if !self.regions[i].pending {
            let va: u64 = self.regions[i].va;
            self.dirty_regions.push(va);
            self.regions[i].pending = true;
            proof {
                if s0.queue_ok() {
                    assert(self.dirty_regions@[s0.dirty_regions@.len() as int] == va);
                    self.lemma_requeued(s0, i as int);
                }
            }
        }
    }

    /// Queueing one more region keeps the queue in step.
    proof fn lemma_requeued(self, s0: FirmwareSpace, i: int)
        requires
            s0.queue_ok(),
            0 <= i < s0.regions@.len(),
            same_shape(s0.regions@, self.regions@),
            same_others(s0.regions@, self.regions@, i),
            self.regions@[i].pending,
            self.dirty_regions@ == s0.dirty_regions@.push(s0.regions@[i].va)
                || self.dirty_regions@ == s0.dirty_regions@ && s0.regions@[i].pending,
        ensures
            self.queue_ok(),
    {
        let va = s0.regions@[i].va;
        let q0 = s0.dirty_regions@;
        let q = self.dirty_regions@;
        assert forall|k: int| 0 <= k < q.len() implies self.has_region(#[trigger] q[k]) by {
            if k < q0.len() {
                assert(s0.has_region(q0[k]));
                let j = choose|j: int|
                    0 <= j < s0.regions@.len() && (#[trigger] s0.regions@[j]).va == q0[k];
                assert(self.regions@[j].va == q[k]);
            } else {
                assert(self.regions@[i].va == va);
            }
        }
        assert forall|j: int|
            0 <= j < self.regions@.len() && (#[trigger] self.regions@[j]).pending implies q.contains(
            self.regions@[j].va,
        ) by {
            assert(self.regions@[j].va == s0.regions@[j].va);
            if j != i {
                assert(self.regions@[j] == s0.regions@[j]);
            }
            if j == i && q.len() > q0.len() {
                assert(q[q0.len() as int] == va);
            } else {
                assert(s0.regions@[j].pending);
                let k = choose|k: int| 0 <= k < q0.len() && q0[k] == s0.regions@[j].va;
                assert(q[k] == self.regions@[j].va);
            }
        }
        assert forall|j: int, k: int|
            0 <= j < self.regions@.len() && 0 <= k < self.regions@[j].dirty@.len()
                && #[trigger] self.regions@[j].dirty@[k] implies self.regions@[j].pending by {
            if j != i {
                assert(self.regions@[j] == s0.regions@[j]);
            }
        }
    }

    /// Splits a write of unpublished bytes into its parts, and notes which pages it touches.
    pub fn write(&mut self, va: u64, len: u64) -> (out: Result<Vec<Chunk>, Error>)
        requires
            fwspace::ordered(old(self).regions@),
        ensures
            fwspace::ordered(final(self).regions@),
            final(self).table == old(self).table,
            final(self).external@ == old(self).external@,
            same_shape(old(self).regions@, final(self).regions@),
            old(self).queue_ok() ==> final(self).queue_ok(),
            match out {
                Ok(chunks) => exists|i: int|
                    {
                        &&& #[trigger] fwspace::precedes(old(self).regions@, i, va as int)
                        &&& old(self).wrote(*final(self), i, va as int, len as int, chunks@)
                    },
                Err(e) => {
                    &&& e == Error::EINVAL
                    &&& *final(self) == *old(self)
                    &&& forall|i: int|
                        #[trigger] fwspace::precedes(old(self).regions@, i, va as int) ==> va + len
                            > old(self).regions@[i].end() || va + len > u64::MAX
                },
            },
    {
        let i: usize = match self.region(va, len) {
            Err(e) => {
                return Err(e);
            },
            Ok(i) => i,
        };
        let ghost s0 = *self;
        assert(self.regions@[i as int].wf());
        if len > 0 {
            self.queue_region(i);
        }
        proof {
            lemma_shape_ordered(s0.regions@, self.regions@);
        }
        let ghost pages = s0.regions@[i as int].pages@;
        let start: u64 = va - self.regions[i].va;
        let mut out: Vec<Chunk> = Vec::new();
        let mut offset: u64 = start;
        let mut from: u64 = 0;
        assert(out@ + region_chunks(pages, start as int, 0, len as int) =~= region_chunks(
            pages,
            start as int,
            0,
            len as int,
        ));
        while from < len
            invariant
                from <= len,
                i < self.regions@.len(),
                offset == start + from,
                start + len <= pages.len() * 0x4000,
                pages.len() * 0x4000 <= u64::MAX,
                start == va - s0.regions@[i as int].va,
                pages == s0.regions@[i as int].pages@,
                fwspace::ordered(self.regions@),
                same_shape(s0.regions@, self.regions@),
                same_others(s0.regions@, self.regions@, i as int),
                len > 0 ==> self.regions@[i as int].pending,
                self.table == s0.table,
                self.external@ == s0.external@,
                self.dirty_regions@ == if s0.regions@[i as int].pending || len == 0 {
                    s0.dirty_regions@
                } else {
                    s0.dirty_regions@.push(s0.regions@[i as int].va)
                },
                s0.queue_ok() ==> self.queue_ok(),
                region_chunks(pages, start as int, 0, len as int) == out@ + region_chunks(
                    pages,
                    offset as int,
                    from as int,
                    len as int,
                ),
                forall|k: int|
                    0 <= k < pages.len() ==> #[trigger] self.regions@[i as int].dirty@[k] == (
                    s0.regions@[i as int].dirty@[k] || touches(start as int, from as int, k)),
            decreases len - from,
        {
            let ghost s1 = *self;
            let ghost before = out@;
            let ghost tail = region_chunks(pages, offset as int, from as int, len as int);
            let within: u64 = offset % 0x4000;
            let size: u64 = if len - from < 0x4000 - within {
                len - from
            } else {
                0x4000 - within
            };
            let index: usize = (offset / 0x4000) as usize;
            assert(index < pages.len());
            assert(self.regions@[i as int].pages@ == pages);
            assert(self.regions@[i as int].wf());
            self.regions[i].dirty[index] = true;
            let frame: u64 = self.regions[i].pages[index];
            out.push(Chunk { frame, within, from, size });
            proof {
                lemma_shape_ordered(s0.regions@, self.regions@);
                if s0.queue_ok() {
                    self.lemma_dirtied(s1, i as int);
                }
                assert forall|k: int| 0 <= k < pages.len() implies #[trigger] self.regions@[i as int].dirty@[k]
                    == (s0.regions@[i as int].dirty@[k] || touches(
                    start as int,
                    from + size,
                    k,
                )) by {
                    assert(s1.regions@[i as int].dirty@[k] == (s0.regions@[i as int].dirty@[k]
                        || touches(start as int, from as int, k)));
                }
            }
            offset += size;
            from += size;
            proof {
                let rest = region_chunks(pages, offset as int, from as int, len as int);
                assert(before + tail =~= out@ + rest);
            }
        }
        proof {
            assert(out@ + region_chunks(pages, offset as int, from as int, len as int) =~= out@);
            assert(s0.wrote(*self, i as int, va as int, len as int, out@));
        }
        Ok(out)
    }

    /// What a write leaves behind.
    pub open spec fn wrote(
        self,
        after: FirmwareSpace,
        i: int,
        va: int,
        len: int,
        chunks: Seq<Chunk>,
    ) -> bool {
        let region = self.regions@[i];
        let offset = va - region.va;
        &&& va + len <= region.end()
        &&& chunks == region_chunks(region.pages@, offset, 0, len)
        &&& same_others(self.regions@, after.regions@, i)
        &&& forall|k: int|
            0 <= k < region.pages@.len() ==> #[trigger] after.regions@[i].dirty@[k] == (
            region.dirty@[k] || touches(offset, len, k))
        &&& after.dirty_regions@ == if region.pending || len == 0 {
            self.dirty_regions@
        } else {
            self.dirty_regions@.push(region.va)
        }
    }

    /// Marking a page of a pending region keeps the queue in step.
    proof fn lemma_dirtied(self, s1: FirmwareSpace, i: int)
        requires
            s1.queue_ok(),
            0 <= i < s1.regions@.len(),
            same_shape(s1.regions@, self.regions@),
            same_others(s1.regions@, self.regions@, i),
            s1.regions@[i].pending,
            self.regions@[i].pending,
            self.dirty_regions@ == s1.dirty_regions@,
        ensures
            self.queue_ok(),
    {
        self.lemma_requeued(s1, i);
    }

    /// Notes that a whole page is initialized before its contents are published, and answers its frame.
    pub fn init_page(&mut self, va: u64) -> (out: Result<u64, Error>)
        requires
            fwspace::ordered(old(self).regions@),
        ensures
            fwspace::ordered(final(self).regions@),
            final(self).table == old(self).table,
            final(self).external@ == old(self).external@,
            same_shape(old(self).regions@, final(self).regions@),
            old(self).queue_ok() ==> final(self).queue_ok(),
            match out {
                Ok(frame) => va % 0x4000 == 0 && exists|i: int|
                    {
                        let region = old(self).regions@[i];
                        let k = (va - region.va) / 0x4000;
                        &&& #[trigger] fwspace::precedes(old(self).regions@, i, va as int)
                        &&& va + 0x4000 <= region.end()
                        &&& frame == region.pages@[k]
                        &&& final(self).regions@[i].dirty@ == region.dirty@.update(k, true)
                        &&& same_others(old(self).regions@, final(self).regions@, i)
                        &&& final(self).dirty_regions@ == if region.pending {
                            old(self).dirty_regions@
                        } else {
                            old(self).dirty_regions@.push(region.va)
                        }
                    },
                Err(e) => {
                    &&& e == Error::EINVAL
                    &&& *final(self) == *old(self)
                    &&& va % 0x4000 == 0 ==> forall|i: int|
                        #[trigger] fwspace::precedes(old(self).regions@, i, va as int) ==> va
                            + 0x4000 > old(self).regions@[i].end() || va + 0x4000 > u64::MAX
                },
            },
    {
        if va % 0x4000 != 0 {
            return Err(Error::EINVAL);
        }
        let i: usize = match self.region(va, 0x4000) {
            Err(e) => {
                return Err(e);
            },
            Ok(i) => i,
        };
        let ghost s0 = *self;
        assert(self.regions@[i as int].wf());
        self.queue_region(i);
        let ghost s1 = *self;
        proof {
            lemma_shape_ordered(s0.regions@, s1.regions@);
            assert(s1.regions@[i as int].wf());
            assert(s1.regions@[i as int].va == s0.regions@[i as int].va);
            assert(s1.regions@[i as int].pages@ == s0.regions@[i as int].pages@);
        }
        let index: usize = ((va - self.regions[i].va) / 0x4000) as usize;
        self.regions[i].dirty[index] = true;
        proof {
            lemma_shape_ordered(s0.regions@, self.regions@);
            if s0.queue_ok() {
                self.lemma_dirtied(s1, i as int);
            }
        }
        Ok(self.regions[i].pages[index])
    }

    /// Splits an update of host-owned bytes that are live into its parts, and publishes them. Cache
    /// maintenance completes once per range, not once per page. A page with unpublished initialization
    /// is published whole, zeros outside the update among it.
    pub fn write_live(&mut self, va: u64, len: u64) -> (out: Result<Vec<LiveChunk>, Error>)
        requires
            fwspace::ordered(old(self).regions@),
        ensures
            fwspace::ordered(final(self).regions@),
            final(self).table == old(self).table,
            final(self).external@ == old(self).external@,
            final(self).dirty_regions@ == old(self).dirty_regions@,
            same_shape(old(self).regions@, final(self).regions@),
            old(self).queue_ok() ==> final(self).queue_ok(),
            match out {
                Ok(chunks) => exists|i: int|
                    {
                        let region = old(self).regions@[i];
                        let offset = va - region.va;
                        &&& #[trigger] fwspace::precedes(old(self).regions@, i, va as int)
                        &&& va + len <= region.end()
                        &&& chunks@ == Seq::new(
                            touched_pages(offset, len as int) as nat,
                            |k: int| live_chunk(region, offset, len as int, k),
                        )
                        &&& same_others(old(self).regions@, final(self).regions@, i)
                        &&& final(self).regions@[i].pending == region.pending
                        &&& forall|k: int|
                            0 <= k < region.pages@.len() ==> #[trigger] final(self).regions@[i].dirty@[k]
                                == (region.dirty@[k] && !touches(offset, len as int, k))
                    },
                Err(e) => {
                    &&& e == Error::EINVAL
                    &&& *final(self) == *old(self)
                    &&& forall|i: int|
                        #[trigger] fwspace::precedes(old(self).regions@, i, va as int) ==> va + len
                            > old(self).regions@[i].end() || va + len > u64::MAX
                },
            },
    {
        let i: usize = match self.region(va, len) {
            Err(e) => {
                return Err(e);
            },
            Ok(i) => i,
        };
        let ghost s0 = *self;
        let ghost region = self.regions@[i as int];
        let mut out: Vec<LiveChunk> = Vec::new();
        assert(self.regions@[i as int].wf());
        if len == 0 {
            proof {
                lemma_shape_same(s0.regions@);
                assert(out@ =~= Seq::new(0, |k: int| live_chunk(region, va - region.va, 0, k)));
            }
            return Ok(out);
        }
        let start: u64 = va - self.regions[i].va;
        let end: u64 = start + len;
        let first: u64 = start / 0x4000;
        let last: u64 = (end - 1) / 0x4000;
        let mut index: u64 = first;
        let ghost want = Seq::new(
            touched_pages(start as int, len as int) as nat,
            |k: int| live_chunk(region, start as int, len as int, k),
        );
        proof {
            lemma_shape_same(s0.regions@);
        }
        while index <= last
            invariant
                first <= index <= last + 1,
                i < self.regions@.len(),
                start == va - region.va,
                end == start + len,
                len > 0,
                first == start / 0x4000,
                last == (end - 1) / 0x4000,
                end <= region.pages@.len() * 0x4000,
                region.pages@.len() * 0x4000 <= u64::MAX,
                region == s0.regions@[i as int],
                fwspace::ordered(self.regions@),
                same_shape(s0.regions@, self.regions@),
                same_others(s0.regions@, self.regions@, i as int),
                self.regions@[i as int].pending == region.pending,
                self.table == s0.table,
                self.external@ == s0.external@,
                self.dirty_regions@ == s0.dirty_regions@,
                s0.queue_ok() ==> self.queue_ok(),
                want == Seq::new(
                    touched_pages(start as int, len as int) as nat,
                    |k: int| live_chunk(region, start as int, len as int, k),
                ),
                out@ == want.take(index - first),
                forall|k: int|
                    0 <= k < region.pages@.len() ==> #[trigger] self.regions@[i as int].dirty@[k] == (
                    region.dirty@[k] && !(first <= k < index)),
            decreases last + 1 - index,
        {
            let ghost s1 = *self;
            assert(self.regions@[i as int].wf());
            assert(self.regions@[i as int].pages@ == region.pages@);
            let base: u64 = index * 0x4000;
            let within: u64 = if start > base {
                start - base
            } else {
                0
            };
            let limit: u64 = if end - base < 0x4000 {
                end - base
            } else {
                0x4000
            };
            let dirty: bool = self.regions[i].dirty[index as usize];
            self.regions[i].dirty[index as usize] = false;
            let frame: u64 = self.regions[i].pages[index as usize];
            out.push(
                LiveChunk {
                    frame,
                    within,
                    limit,
                    from: base + within - start,
                    invalidate: !dirty,
                    clean_from: if dirty {
                        0
                    } else {
                        within / 64 * 64
                    },
                    clean_to: if dirty {
                        0x4000
                    } else {
                        limit
                    },
                },
            );
            proof {
                lemma_shape_ordered(s0.regions@, self.regions@);
                if s0.queue_ok() {
                    self.lemma_cleaned(s1, i as int);
                }
                assert(out@ =~= want.take(index - first + 1));
            }
            index += 1;
        }
        proof {
            assert(out@ =~= want);
            assert forall|k: int| 0 <= k < region.pages@.len() implies #[trigger] self.regions@[i as int].dirty@[k]
                == (region.dirty@[k] && !touches(start as int, len as int, k)) by {
                assert(touches(start as int, len as int, k) == (first <= k <= last));
            }
        }
        Ok(out)
    }

    /// Clearing a flag keeps the queue in step.
    proof fn lemma_cleaned(self, s1: FirmwareSpace, i: int)
        requires
            s1.queue_ok(),
            0 <= i < s1.regions@.len(),
            same_shape(s1.regions@, self.regions@),
            same_others(s1.regions@, self.regions@, i),
            self.regions@[i].pending == s1.regions@[i].pending,
            self.dirty_regions@ == s1.dirty_regions@,
            forall|k: int|
                0 <= k < s1.regions@[i].dirty@.len() && #[trigger] self.regions@[i].dirty@[k]
                    ==> s1.regions@[i].dirty@[k],
        ensures
            self.queue_ok(),
    {
        let q = s1.dirty_regions@;
        assert forall|k: int| 0 <= k < q.len() implies self.has_region(
            #[trigger] self.dirty_regions@[k],
        ) by {
            assert(s1.has_region(q[k]));
            let j = choose|j: int| 0 <= j < s1.regions@.len() && (#[trigger] s1.regions@[j]).va == q[k];
            assert(self.regions@[j].va == q[k]);
        }
        assert forall|j: int|
            0 <= j < self.regions@.len() && (#[trigger] self.regions@[j]).pending implies q.contains(
            self.regions@[j].va,
        ) by {
            assert(s1.regions@[j].va == self.regions@[j].va);
            if j != i {
                assert(self.regions@[j] == s1.regions@[j]);
            }
            assert(s1.regions@[j].pending);
        }
        assert forall|j: int, k: int|
            0 <= j < self.regions@.len() && 0 <= k < self.regions@[j].dirty@.len()
                && #[trigger] self.regions@[j].dirty@[k] implies self.regions@[j].pending by {
            if j != i {
                assert(self.regions@[j] == s1.regions@[j]);
            } else {
                assert(s1.regions@[j].dirty@[k]);
            }
        }
    }

    /// Where an aligned word is read from: its frame and the offset in it.
    pub fn read_u32(&self, va: u64) -> (out: Result<(u64, u64), Error>)
        requires
            fwspace::ordered(self.regions@),
        ensures
            match out {
                Ok((frame, within)) => va % 4 == 0 && exists|i: int|
                    {
                        let region = self.regions@[i];
                        &&& #[trigger] fwspace::precedes(self.regions@, i, va as int)
                        &&& va + 4 <= region.end()
                        &&& frame == region.pages@[(va - region.va) / 0x4000]
                        &&& within == (va - region.va) % 0x4000
                        &&& within + 4 <= 0x4000
                    },
                Err(e) => e == Error::EINVAL && (va % 4 != 0 || forall|i: int|
                    #[trigger] fwspace::precedes(self.regions@, i, va as int) ==> va + 4
                        > self.regions@[i].end() || va + 4 > u64::MAX),
            },
    {
        if va % 4 != 0 {
            return Err(Error::EINVAL);
        }
        let i: usize = match self.region(va, 4) {
            Err(e) => {
                return Err(e);
            },
            Ok(i) => i,
        };
        assert(self.regions@[i as int].wf());
        let offset: u64 = va - self.regions[i].va;
        Ok((self.regions[i].pages[(offset / 0x4000) as usize], offset % 0x4000))
    }

    /// The frames of the pages to clean, of all regions on the queue, which is emptied.
    #[verifier::rlimit(30)]
    pub fn sync(&mut self) -> (out: Vec<u64>)
        requires
            fwspace::ordered(old(self).regions@),
            old(self).queue_ok(),
        ensures
            fwspace::ordered(final(self).regions@),
            final(self).table == old(self).table,
            final(self).external@ == old(self).external@,
            final(self).dirty_regions@.len() == 0,
            same_shape(old(self).regions@, final(self).regions@),
            forall|i: int| 0 <= i < final(self).regions@.len() ==> !(#[trigger] final(self).regions@[i]).pending,
            forall|i: int, k: int|
                0 <= i < final(self).regions@.len() && 0 <= k < final(self).regions@[i].dirty@.len()
                    ==> !(#[trigger] final(self).regions@[i].dirty@[k]),
            final(self).queue_ok(),
            forall|f: u64| #[trigger] out@.contains(f) == old(self).unpublished(f),
    {
        let ghost s0 = *self;
        let mut out: Vec<u64> = Vec::new();
        let mut i: usize = 0;
        proof {
            lemma_shape_same(s0.regions@);
        }
        while i < self.regions.len()
            invariant
                i <= self.regions@.len(),
                s0 == *old(self),
                s0.queue_ok(),
                fwspace::ordered(self.regions@),
                self.table == s0.table,
                self.external@ == s0.external@,
                same_shape(s0.regions@, self.regions@),
                forall|j: int| i <= j < self.regions@.len() ==> (#[trigger] self.regions@[j]) == s0.regions@[j],
                forall|j: int| 0 <= j < i ==> !(#[trigger] self.regions@[j]).pending,
                forall|j: int, k: int|
                    0 <= j < i && 0 <= k < self.regions@[j].dirty@.len()
                        ==> !(#[trigger] self.regions@[j].dirty@[k]),
                forall|f: u64| #[trigger] out@.contains(f) == s0.unpublished_in(f, i as int, 0),
            decreases self.regions@.len() - i,
        {
            let ghost r0 = self.regions@;
            assert(self.regions@[i as int].wf());
            self.regions[i].pending = false;
            proof {
                lemma_shape_ordered(s0.regions@, self.regions@);
            }
            let n: usize = self.regions[i].pages.len();
            let mut k: usize = 0;
            while k < n
                invariant
                    k <= n,
                    i < self.regions@.len(),
                    r0.len() == self.regions@.len(),
                    n == self.regions@[i as int].pages@.len(),
                    n == self.regions@[i as int].dirty@.len(),
                    s0 == *old(self),
                    fwspace::ordered(self.regions@),
                    self.table == s0.table,
                    self.external@ == s0.external@,
                    same_shape(s0.regions@, self.regions@),
                    r0[i as int] == s0.regions@[i as int],
                    !self.regions@[i as int].pending,
                    forall|j: int|
                        0 <= j < self.regions@.len() && j != i ==> (#[trigger] self.regions@[j]) == r0[j],
                    forall|m: int|
                        k <= m < n ==> #[trigger] self.regions@[i as int].dirty@[m]
                            == s0.regions@[i as int].dirty@[m],
                    forall|m: int| 0 <= m < k ==> !(#[trigger] self.regions@[i as int].dirty@[m]),
                    forall|f: u64| #[trigger] out@.contains(f) == s0.unpublished_in(f, i as int, k as int),
                decreases n - k,
            {
                let ghost o0 = out@;
                let ghost r1 = self.regions@;
                assert(self.regions@[i as int].pages@ == s0.regions@[i as int].pages@);
                if self.regions[i].dirty[k] {
                    let frame: u64 = self.regions[i].pages[k];
                    out.push(frame);
                    self.regions[i].dirty[k] = false;
                    proof {
                        lemma_shape_ordered(s0.regions@, self.regions@);
                        assert forall|f: u64| #[trigger] out@.contains(f) == s0.unpublished_in(
                            f,
                            i as int,
                            k + 1,
                        ) by {
                            s0.lemma_unpublished_step(f, i as int, k as int);
                            assert(o0.contains(f) == s0.unpublished_in(f, i as int, k as int));
                            lemma_push_contains(o0, frame, f);
                        }
                    }
                } else {
                    proof {
                        assert forall|f: u64| #[trigger] out@.contains(f) == s0.unpublished_in(
                            f,
                            i as int,
                            k + 1,
                        ) by {
                            s0.lemma_unpublished_step(f, i as int, k as int);
                        }
                    }
                }
                k += 1;
            }
            proof {
                assert forall|f: u64| #[trigger] out@.contains(f) == s0.unpublished_in(f, i + 1, 0) by {
                    s0.lemma_unpublished_next(f, i as int);
                    assert(s0.regions@[i as int].dirty@.len() == n);
                }
                assert forall|j: int, m: int|
                    0 <= j < i + 1 && 0 <= m < self.regions@[j].dirty@.len() implies !(
                #[trigger] self.regions@[j].dirty@[m]) by {
                    if j < i {
                        assert(self.regions@[j] == r0[j]);
                        assert(!r0[j].dirty@[m]);
                    }
                }
            }
            i += 1;
        }
        self.dirty_regions.clear();
        proof {
            assert forall|f: u64| #[trigger] out@.contains(f) == s0.unpublished(f) by {
                assert(out@.contains(f) == s0.unpublished_in(f, i as int, 0));
                s0.lemma_unpublished_all(f);
            }
        }
        out
    }

    /// Whether a frame is one of an unpublished page.
    pub open spec fn unpublished(self, frame: u64) -> bool {
        exists|i: int, k: int|
            0 <= i < self.regions@.len() && 0 <= k < self.regions@[i].dirty@.len()
                && #[trigger] self.regions@[i].dirty@[k] && self.regions@[i].pages@[k] == frame
    }

    /// Whether a frame is one of an unpublished page before a position.
    pub open spec fn unpublished_in(self, frame: u64, n: int, m: int) -> bool {
        exists|i: int, k: int|
            0 <= i < self.regions@.len() && 0 <= k < self.regions@[i].dirty@.len() && (i < n || (i
                == n && k < m)) && #[trigger] self.regions@[i].dirty@[k]
                && self.regions@[i].pages@[k] == frame
    }

    proof fn lemma_unpublished_step(self, frame: u64, n: int, m: int)
        requires
            0 <= n < self.regions@.len(),
            0 <= m < self.regions@[n].dirty@.len(),
        ensures
            self.unpublished_in(frame, n, m + 1) == (self.unpublished_in(frame, n, m) || (
            self.regions@[n].dirty@[m] && self.regions@[n].pages@[m] == frame)),
    {
        if self.unpublished_in(frame, n, m + 1) {
            let (i, k) = choose|i: int, k: int|
                0 <= i < self.regions@.len() && 0 <= k < self.regions@[i].dirty@.len() && (i < n || (i
                    == n && k < m + 1)) && #[trigger] self.regions@[i].dirty@[k]
                    && self.regions@[i].pages@[k] == frame;
            assert(self.regions@[i].dirty@[k]);
        }
        if self.unpublished_in(frame, n, m) {
            let (i, k) = choose|i: int, k: int|
                0 <= i < self.regions@.len() && 0 <= k < self.regions@[i].dirty@.len() && (i < n || (i
                    == n && k < m)) && #[trigger] self.regions@[i].dirty@[k]
                    && self.regions@[i].pages@[k] == frame;
            assert(self.regions@[i].dirty@[k]);
        }
        if self.regions@[n].dirty@[m] && self.regions@[n].pages@[m] == frame {
            assert(self.unpublished_in(frame, n, m + 1));
        }
    }

    proof fn lemma_unpublished_next(self, frame: u64, n: int)
        requires
            0 <= n < self.regions@.len(),
        ensures
            self.unpublished_in(frame, n + 1, 0) == self.unpublished_in(
                frame,
                n,
                self.regions@[n].dirty@.len() as int,
            ),
    {
        let m = self.regions@[n].dirty@.len() as int;
        if self.unpublished_in(frame, n + 1, 0) {
            let (i, k) = choose|i: int, k: int|
                0 <= i < self.regions@.len() && 0 <= k < self.regions@[i].dirty@.len() && (i < n + 1
                    || (i == n + 1 && k < 0)) && #[trigger] self.regions@[i].dirty@[k]
                    && self.regions@[i].pages@[k] == frame;
            assert(self.regions@[i].dirty@[k]);
        }
        if self.unpublished_in(frame, n, m) {
            let (i, k) = choose|i: int, k: int|
                0 <= i < self.regions@.len() && 0 <= k < self.regions@[i].dirty@.len() && (i < n || (i
                    == n && k < m)) && #[trigger] self.regions@[i].dirty@[k]
                    && self.regions@[i].pages@[k] == frame;
            assert(self.regions@[i].dirty@[k]);
        }
    }

    proof fn lemma_unpublished_all(self, frame: u64)
        ensures
            self.unpublished_in(frame, self.regions@.len() as int, 0) == self.unpublished(frame),
    {
        if self.unpublished(frame) {
            let (i, k) = choose|i: int, k: int|
                0 <= i < self.regions@.len() && 0 <= k < self.regions@[i].dirty@.len()
                    && #[trigger] self.regions@[i].dirty@[k] && self.regions@[i].pages@[k] == frame;
            assert(self.regions@[i].dirty@[k]);
        }
        if self.unpublished_in(frame, self.regions@.len() as int, 0) {
            let n = self.regions@.len() as int;
            let (i, k) = choose|i: int, k: int|
                0 <= i < self.regions@.len() && 0 <= k < self.regions@[i].dirty@.len() && (i < n || (i
                    == n && k < 0)) && #[trigger] self.regions@[i].dirty@[k]
                    && self.regions@[i].pages@[k] == frame;
            assert(self.regions@[i].dirty@[k]);
        }
    }
}

/// What a sequence contains after one more element.
proof fn lemma_push_contains(s: Seq<u64>, a: u64, x: u64)
    ensures
        s.push(a).contains(x) == (s.contains(x) || x == a),
{
    if s.contains(x) {
        let k = choose|k: int| 0 <= k < s.len() && s[k] == x;
        assert(s.push(a)[k] == x);
    }
    assert(s.push(a)[s.len() as int] == a);
    if s.push(a).contains(x) {
        let k = choose|k: int| 0 <= k < s.push(a).len() && s.push(a)[k] == x;
        if k < s.len() {
            assert(s[k] == x);
        }
    }
}

/// Regions of the same shape are in the same order.
proof fn lemma_shape_ordered(a: Seq<FirmwareRegion>, b: Seq<FirmwareRegion>)
    requires
        fwspace::ordered(a),
        same_shape(a, b),
    ensures
        fwspace::ordered(b),
{
    assert forall|i: int| 0 <= i < b.len() implies (#[trigger] b[i]).wf() by {
        assert(a[i].wf());
    }
    assert forall|i: int, j: int| 0 <= i < j < b.len() implies (#[trigger] b[i]).end() <= (
    #[trigger] b[j]).va by {
        assert(a[i].end() <= a[j].va);
    }
}

/// Regions have their own shape.
proof fn lemma_shape_same(a: Seq<FirmwareRegion>)
    ensures
        same_shape(a, a),
{
}

} // verus!
