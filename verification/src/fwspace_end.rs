//! Reading double words, and giving the firmware's half of the address space back.
use crate::error::Error;
use crate::fwspace;
use crate::fwspace::{FirmwareRegion, FirmwareSpace, FIRMWARE_START};
use crate::tables;
use crate::tables::TableMemory;
use crate::walk;
use vstd::prelude::*;

verus! {

/// Whether a page belongs to a region.
pub open spec fn in_region(region: FirmwareRegion, page: int) -> bool {
    FirmwareSpace::page_of(region.va as int) <= page < FirmwareSpace::page_of(region.end())
}

/// Whether a page belongs to an aperture that could be mapped.
pub open spec fn in_aperture(aperture: (u64, u64), page: int) -> bool {
    &&& aperture.0 % 0x4000 == 0
    &&& aperture.1 % 0x4000 == 0
    &&& FIRMWARE_START <= aperture.0 <= aperture.1
    &&& FirmwareSpace::page_of(aperture.0 as int) <= page < FirmwareSpace::page_of(aperture.1 as int)
}

/// Whether a page belongs to one of the first regions.
pub open spec fn in_regions(regions: Seq<FirmwareRegion>, n: int, page: int) -> bool {
    exists|i: int| 0 <= i < n && in_region(#[trigger] regions[i], page)
}

/// Whether a page belongs to one of the first apertures.
pub open spec fn in_apertures(apertures: Seq<(u64, u64)>, n: int, page: int) -> bool {
    exists|i: int| 0 <= i < n && in_aperture(#[trigger] apertures[i], page)
}

/// The frames behind the first regions.
pub open spec fn frames_behind(regions: Seq<FirmwareRegion>, n: int) -> Seq<u64>
    decreases n,
{
    if n <= 0 {
        seq![]
    } else {
        frames_behind(regions, n - 1) + regions[n - 1].pages@
    }
}

/// Where a word is read from.
pub open spec fn word_place(regions: Seq<FirmwareRegion>, i: int, va: int, frame: u64, within: u64) -> bool {
    &&& fwspace::precedes(regions, i, va)
    &&& va + 4 <= regions[i].end()
    &&& frame == regions[i].pages@[(va - regions[i].va) / 0x4000]
    &&& within == (va - regions[i].va) % 0x4000
}

/// Whether a word is read from a frame at an offset.
pub open spec fn word_at(regions: Seq<FirmwareRegion>, va: int, place: (u64, u64)) -> bool {
    exists|i: int| #[trigger] word_place(regions, i, va, place.0, place.1)
}

/// Whether a word can be read.
pub open spec fn readable(regions: Seq<FirmwareRegion>, va: int) -> bool {
    va % 4 == 0 && exists|i: int|
        #[trigger] fwspace::precedes(regions, i, va) && va + 4 <= regions[i].end()
}

impl FirmwareSpace {
    /// Where the two words of a double word are read from, the low one first. They need not be on one
    /// page.
    pub fn read_u64(&self, va: u64) -> (out: Result<[(u64, u64); 2], Error>)
        requires
            fwspace::ordered(self.regions@),
        ensures
            match out {
                Ok(places) => va % 4 == 0 && word_at(self.regions@, va as int, places@[0]) && word_at(
                    self.regions@,
                    va + 4,
                    places@[1],
                ),
                Err(e) => e == Error::EINVAL && !(readable(self.regions@, va as int) && readable(
                    self.regions@,
                    va + 4,
                )),
            },
    {
        let low: (u64, u64) = match self.read_u32(va) {
            Err(e) => {
                assert(!readable(self.regions@, va as int)) by {
                    if readable(self.regions@, va as int) {
                        let i = choose|i: int|
                            #[trigger] fwspace::precedes(self.regions@, i, va as int) && va + 4
                                <= self.regions@[i].end();
                        assert(self.regions@[i].wf());
                    }
                }
                return Err(e);
            },
            Ok(low) => low,
        };
        proof {
            let i = choose|i: int|
                {
                    let region = self.regions@[i];
                    &&& #[trigger] fwspace::precedes(self.regions@, i, va as int)
                    &&& va + 4 <= region.end()
                    &&& low.0 == region.pages@[(va - region.va) / 0x4000]
                    &&& low.1 == (va - region.va) % 0x4000
                    &&& low.1 + 4 <= 0x4000
                };
            assert(word_place(self.regions@, i, va as int, low.0, low.1));
            assert(word_at(self.regions@, va as int, low));
            assert(self.regions@[i].wf());
        }
        let high: (u64, u64) = match self.read_u32(va + 4) {
            Err(e) => {
                assert(!readable(self.regions@, va + 4)) by {
                    if readable(self.regions@, va + 4) {
                        let i = choose|i: int|
                            #[trigger] fwspace::precedes(self.regions@, i, va + 4) && va + 4 + 4
                                <= self.regions@[i].end();
                        assert(self.regions@[i].wf());
                    }
                }
                return Err(e);
            },
            Ok(high) => high,
        };
        proof {
            let i = choose|i: int|
                {
                    let region = self.regions@[i];
                    &&& #[trigger] fwspace::precedes(self.regions@, i, va + 4)
                    &&& va + 4 + 4 <= region.end()
                    &&& high.0 == region.pages@[(va + 4 - region.va) / 0x4000]
                    &&& high.1 == (va + 4 - region.va) % 0x4000
                    &&& high.1 + 4 <= 0x4000
                };
            assert(word_place(self.regions@, i, va + 4, high.0, high.1));
            assert(word_at(self.regions@, va + 4, high));
        }
        let places: [(u64, u64); 2] = [low, high];
        assert(places@[0] == low && places@[1] == high);
        Ok(places)
    }

    /// Removes all mappings of regions and apertures, before the frames behind the regions are given back.
    /// This is for a firmware that has not started, or has stopped. Answers the frames.
    pub fn teardown(&mut self, mem: &mut TableMemory) -> (out: Vec<u64>)
        requires
            old(self).wf(*old(mem)),
        ensures
            old(self).tables_kept(*old(mem), *final(self), *final(mem)),
            final(self).regions@.len() == 0,
            final(self).external@.len() == 0,
            final(self).dirty_regions@.len() == 0,
            out@ == frames_behind(old(self).regions@, old(self).regions@.len() as int),
            forall|q: int|
                tables::in_tree(q) ==> #[trigger] final(self).entry(*final(mem), q) == if in_regions(
                    old(self).regions@,
                    old(self).regions@.len() as int,
                    q,
                ) || in_apertures(old(self).external@, old(self).external@.len() as int, q) {
                    0
                } else {
                    old(self).entry(*old(mem), q)
                },
    {
        let ghost s0 = *self;
        let ghost m0 = *mem;
        let mut frames: Vec<u64> = Vec::new();
        proof {
            walk::lemma_framed_refl(self.table.tree(*mem));
        }
        let mut i: usize = 0;
        while i < self.regions.len()
            invariant
                i <= s0.regions@.len(),
                s0.wf(m0),
                self.same_but_walked(s0),
                s0.tables_kept(m0, *self, *mem),
                frames@ == frames_behind(s0.regions@, i as int),
                forall|q: int|
                    tables::in_tree(q) ==> #[trigger] self.entry(*mem, q) == if in_regions(
                        s0.regions@,
                        i as int,
                        q,
                    ) {
                        0
                    } else {
                        s0.entry(m0, q)
                    },
            decreases s0.regions@.len() - i,
        {
            let ghost s1 = *self;
            let ghost m1 = *mem;
            assert(s0.regions@[i as int].wf());
            let start: u64 = self.regions[i].va;
            let count: usize = self.regions[i].pages.len();
            let end: u64 = start + count as u64 * 0x4000;
            let ghost done = frames@;
            assert(done + s0.regions@[i as int].pages@.take(0) =~= done);
            let mut k: usize = 0;
            while k < count
                invariant
                    k <= count,
                    i < s0.regions@.len(),
                    self.regions@ == s0.regions@,
                    count == s0.regions@[i as int].pages@.len(),
                    frames@ == done + s0.regions@[i as int].pages@.take(k as int),
                decreases count - k,
            {
                frames.push(self.regions[i].pages[k]);
                k += 1;
                assert(frames@ =~= done + s0.regions@[i as int].pages@.take(k as int));
            }
            assert(s0.regions@[i as int].pages@.take(k as int) =~= s0.regions@[i as int].pages@);
            self.unmap_range(mem, start, end);
            proof {
                fwspace::lemma_kept_trans(s0, m0, s1, m1, *self, *mem);
                assert forall|q: int| tables::in_tree(q) implies #[trigger] self.entry(*mem, q)
                    == if in_regions(s0.regions@, i + 1, q) {
                    0
                } else {
                    s0.entry(m0, q)
                } by {
                    assert(s1.entry(m1, q) == if in_regions(s0.regions@, i as int, q) {
                        0
                    } else {
                        s0.entry(m0, q)
                    });
                    if in_regions(s0.regions@, i as int, q) {
                        let j = choose|j: int| 0 <= j < i && in_region(#[trigger] s0.regions@[j], q);
                        assert(in_region(s0.regions@[j], q));
                    }
                    if in_region(s0.regions@[i as int], q) {
                        assert(in_regions(s0.regions@, i + 1, q));
                    }
                }
            }
            i += 1;
        }
        let mut j: usize = 0;
        while j < self.external.len()
            invariant
                j <= s0.external@.len(),
                i == s0.regions@.len(),
                s0.wf(m0),
                self.same_but_walked(s0),
                s0.tables_kept(m0, *self, *mem),
                forall|q: int|
                    tables::in_tree(q) ==> #[trigger] self.entry(*mem, q) == if in_regions(
                        s0.regions@,
                        i as int,
                        q,
                    ) || in_apertures(s0.external@, j as int, q) {
                        0
                    } else {
                        s0.entry(m0, q)
                    },
            decreases s0.external@.len() - j,
        {
            let ghost s1 = *self;
            let ghost m1 = *mem;
            let (start, end): (u64, u64) = self.external[j];
            if start % 0x4000 == 0 && end % 0x4000 == 0 && FIRMWARE_START <= start && start <= end {
                self.unmap_range(mem, start, end);
                proof {
                    fwspace::lemma_kept_trans(s0, m0, s1, m1, *self, *mem);
                }
            }
            proof {
                assert forall|q: int| tables::in_tree(q) implies #[trigger] self.entry(*mem, q)
                    == if in_regions(s0.regions@, i as int, q) || in_apertures(
                    s0.external@,
                    j + 1,
                    q,
                ) {
                    0
                } else {
                    s0.entry(m0, q)
                } by {
                    assert(s1.entry(m1, q) == if in_regions(s0.regions@, i as int, q) || in_apertures(
                        s0.external@,
                        j as int,
                        q,
                    ) {
                        0
                    } else {
                        s0.entry(m0, q)
                    });
                    if in_apertures(s0.external@, j as int, q) {
                        let k = choose|k: int| 0 <= k < j && in_aperture(#[trigger] s0.external@[k], q);
                        assert(in_aperture(s0.external@[k], q));
                    }
                    if in_aperture(s0.external@[j as int], q) {
                        assert(in_apertures(s0.external@, j + 1, q));
                    }
                }
            }
            j += 1;
        }
        let ghost s2 = *self;
        self.regions = Vec::new();
        self.external = Vec::new();
        self.dirty_regions = Vec::new();
        proof {
            assert(self.table == s2.table);
            assert forall|q: int| tables::in_tree(q) implies #[trigger] self.entry(*mem, q) == s2.entry(
                *mem,
                q,
            ) by {}
        }
        frames
    }
}

} // verus!
