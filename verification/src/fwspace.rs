//! The address space of the firmware.
//!
//! The firmware uses the bootloader's root independently of all client slots. Its existing tables
//! remain owned by the firmware reservation.
use crate::error::Error;
use crate::pgtable::UatPageTable;
use crate::prot;
use crate::prot::Prot;
use crate::tables;
use crate::tables::TableMemory;
use crate::walk;
use vstd::prelude::*;

verus! {

/// First address of the firmware half.
pub const FIRMWARE_START: u64 = 0xffff_fc00_0000_0000;

/// End of the firmware half.
pub const FIRMWARE_END: u64 = 0xffff_ffff_ffff_c000;

/// A range that the host owns. One flag per page tells whether it has been written and not published;
/// live writes publish themselves, so only allocation and initialization leave work for the next
/// synchronization.
pub struct FirmwareRegion {
    pub va: u64,
    pub pages: Vec<u64>,
    pub dirty: Vec<bool>,
    pub pending: bool,
}

/// The firmware root, the regions below it that the host owns, and the apertures it borrows.
pub struct FirmwareSpace {
    pub table: UatPageTable,
    pub regions: Vec<FirmwareRegion>,
    pub dirty_regions: Vec<u64>,
    pub external: Vec<(u64, u64)>,
}

impl FirmwareRegion {
    /// The end of a region.
    pub open spec fn end(self) -> int {
        self.va + self.pages@.len() * 0x4000
    }

    /// Whole pages, each with its flag, inside the firmware half.
    pub open spec fn wf(self) -> bool {
        &&& self.va % 0x4000 == 0
        &&& self.pages@.len() > 0
        &&& self.dirty@.len() == self.pages@.len()
        &&& FIRMWARE_START <= self.va
        &&& self.end() <= FIRMWARE_END
    }
}

/// Whether regions are in order and do not overlap.
pub open spec fn ordered(regions: Seq<FirmwareRegion>) -> bool {
    &&& forall|i: int| 0 <= i < regions.len() ==> (#[trigger] regions[i]).wf()
    &&& forall|i: int, j: int|
        0 <= i < j < regions.len() ==> (#[trigger] regions[i]).end() <= (#[trigger] regions[j]).va
}

/// Whether a region is the last one that does not start behind an address.
pub open spec fn precedes(regions: Seq<FirmwareRegion>, i: int, va: int) -> bool {
    &&& 0 <= i < regions.len()
    &&& regions[i].va <= va
    &&& i + 1 < regions.len() ==> va < regions[i + 1].va
}

impl FirmwareSpace {
    /// The root is well-formed and regions are in order.
    pub open spec fn wf(self, mem: TableMemory) -> bool {
        &&& self.table.wf(mem)
        &&& self.table.va_range.start == FIRMWARE_START
        &&& self.table.va_range.end == FIRMWARE_END
        &&& self.table.ias_mask == 0x3ff_ffff_ffff
        &&& self.table.oas_mask == 0x3ff_ffff_ffff
        &&& !self.table.ttb_owned
        &&& ordered(self.regions@)
    }

    /// Finds the preceding region, then validates the whole access. Adjacent regions do not hide an
    /// access that leaves one of them.
    pub fn region(&self, va: u64, size: u64) -> (out: Result<usize, Error>)
        requires
            ordered(self.regions@),
        ensures
            match out {
                Ok(i) => precedes(self.regions@, i as int, va as int) && va + size
                    <= self.regions@[i as int].end(),
                Err(e) => e == Error::EINVAL && forall|i: int|
                    #[trigger] precedes(self.regions@, i, va as int) ==> va + size
                        > self.regions@[i].end() || va + size > u64::MAX,
            },
    {
        let end: u64 = match va.checked_add(size) {
            None => {
                return Err(Error::EINVAL);
            },
            Some(end) => end,
        };
        let mut lo: usize = 0;
        let mut hi: usize = self.regions.len();
        while lo < hi
            invariant
                lo <= hi <= self.regions@.len(),
                ordered(self.regions@),
                forall|i: int| 0 <= i < lo ==> (#[trigger] self.regions@[i]).va <= va,
                forall|i: int|
                    hi <= i < self.regions@.len() ==> va < (#[trigger] self.regions@[i]).va,
            decreases hi - lo,
        {
            let mid: usize = lo + (hi - lo) / 2;
            if self.regions[mid].va <= va {
                proof {
                    assert forall|i: int| 0 <= i < mid + 1 implies (#[trigger] self.regions@[i]).va
                        <= va by {
                        if i < mid {
                            assert(self.regions@[i].end() <= self.regions@[mid as int].va);
                        }
                    }
                }
                lo = mid + 1;
            } else {
                proof {
                    assert forall|i: int| mid <= i < self.regions@.len() implies va < (
                    #[trigger] self.regions@[i]).va by {
                        if i > mid {
                            assert(self.regions@[mid as int].end() <= self.regions@[i].va);
                        }
                    }
                }
                hi = mid;
            }
        }
        if lo == 0 {
            return Err(Error::EINVAL);
        }
        let i: usize = lo - 1;
        assert(precedes(self.regions@, i as int, va as int));
        assert(self.regions@[i as int].wf());
        let last: u64 = self.regions[i].va + self.regions[i].pages.len() as u64 * 0x4000;
        if end > last {
            assert forall|j: int| #[trigger] precedes(self.regions@, j, va as int) implies va + size
                > self.regions@[j].end() by {
                if j < i {
                    assert(self.regions@[j + 1].va <= va);
                } else if j > i {
                    assert(va < self.regions@[j].va);
                }
            }
            return Err(Error::EINVAL);
        }
        Ok(i)
    }

    /// Number of the page of an address of the firmware half.
    pub open spec fn page_of(va: int) -> int {
        (va - FIRMWARE_START) / 0x4000
    }

    /// The leaf entry of a page.
    pub open spec fn entry(self, mem: TableMemory, page: int) -> u64 {
        self.table.tree(mem).value(page)
    }

    /// The entry bits of a mapping below the firmware root.
    pub open spec fn bits(prot: Prot) -> u64 {
        prot::pte_of(prot) | 3
    }

    /// Same regions, bookkeeping and root; only what a walk records may differ.
    pub open spec fn same_but_walked(self, other: FirmwareSpace) -> bool {
        &&& self.table.same_root(other.table)
        &&& self.regions@ == other.regions@
        &&& self.dirty_regions@ == other.dirty_regions@
        &&& self.external@ == other.external@
    }

    /// What holds after every operation on the tables: tables outside the tree are untouched, links
    /// are kept, and no page is blocked or unblocked.
    pub open spec fn tables_kept(self, m0: TableMemory, after: FirmwareSpace, m: TableMemory) -> bool {
        &&& after.wf(m)
        &&& after.table.same_root(self.table)
        &&& walk::framed(self.table.tree(m0), after.table.tree(m))
        &&& walk::extends(self.table.tree(m0), after.table.tree(m))
        &&& after.table.tree(m).same_blocked(self.table.tree(m0))
    }

    /// Attaches to the firmware root.
    pub fn attach(mem: &TableMemory, ttb: u64) -> (out: Result<Self, Error>)
        ensures
            match out {
                Ok(space) => {
                    &&& ttb % 0x4000 == 0
                    &&& mem.map().contains_key(ttb)
                    &&& space.table.ttb == ttb
                    &&& space.regions@.len() == 0
                    &&& space.dirty_regions@.len() == 0
                    &&& space.external@.len() == 0
                    &&& mem.wf() && mem.free_ok(0x3ff_ffff_ffff) && space.table.tree(*mem).wf()
                        ==> space.wf(*mem)
                },
                Err(e) => e == if ttb % 0x4000 != 0 {
                    Error::EINVAL
                } else {
                    Error::EIO
                } && (ttb % 0x4000 != 0 || !mem.map().contains_key(ttb)),
            },
    {
        proof {
            vstd::arithmetic::power2::lemma2_to64_rest();
        }
        match UatPageTable::new_with_ttb_and_ias(mem, ttb, FIRMWARE_START..FIRMWARE_END, 42, 42) {
            Err(e) => Err(e),
            Ok(table) => Ok(
                FirmwareSpace {
                    table,
                    regions: Vec::new(),
                    dirty_regions: Vec::new(),
                    external: Vec::new(),
                },
            ),
        }
    }

    /// An address of the firmware half lies in the page at its distance from the start.
    proof fn lemma_page_of(self, mem: TableMemory, va: u64)
        requires
            self.wf(mem),
            FIRMWARE_START <= va,
        ensures
            self.table.first_page(va) == Self::page_of(va as int),
            tables::in_tree(Self::page_of(va as int)),
    {
        vstd::arithmetic::div_mod::lemma_fundamental_div_mod_converse(
            va as int,
            0x400_0000_0000,
            0x3f_ffff,
            va - FIRMWARE_START,
        );
    }

    /// An aligned range of the firmware half covers its pages in order.
    pub proof fn lemma_range_of(self, mem: TableMemory, start: u64, end: u64)
        requires
            self.wf(mem),
            FIRMWARE_START <= start < end,
            start % 0x4000 == 0,
            end % 0x4000 == 0,
        ensures
            self.table.first_page(start) == Self::page_of(start as int),
            self.table.end_page(end) == Self::page_of(end as int),
            tables::in_tree(Self::page_of(start as int)),
            0 <= Self::page_of(end as int) <= tables::PAGES,
    {
        self.lemma_page_of(mem, start);
        vstd::arithmetic::div_mod::lemma_fundamental_div_mod_converse(
            end - 1,
            0x400_0000_0000,
            0x3f_ffff,
            end - 1 - FIRMWARE_START,
        );
    }

    /// Maps one page.
    #[verifier::rlimit(40)]
    fn map_one(&mut self, mem: &mut TableMemory, v: u64, frame: u64, access: Prot) -> (out: Result<
        (),
        Error,
    >)
        requires
            old(self).wf(*old(mem)),
            v % 0x4000 == 0,
            FIRMWARE_START <= v,
            v + 0x4000 <= FIRMWARE_END,
            frame % 0x4000 == 0,
            frame <= 0x3ff_ffff_c000,
        ensures
            old(self).tables_kept(*old(mem), *final(self), *final(mem)),
            final(self).same_but_walked(*old(self)),
            out is Err ==> out->Err_0 == Error::ENOMEM && old(mem).free@.len() < 2,
            final(mem).free@.len() + 2 >= old(mem).free@.len(),
            forall|q: int|
                tables::in_tree(q) ==> #[trigger] final(self).entry(*final(mem), q) == if out is Ok
                    && q == Self::page_of(v as int) && !old(self).table.tree(*old(mem)).blocked(q) {
                    frame | Self::bits(access)
                } else {
                    old(self).entry(*old(mem), q)
                },
    {
        let ghost s0 = *self;
        let ghost m0 = *mem;
        let ghost lo = Self::page_of(v as int);
        proof {
            self.lemma_range_of(*mem, v, (v + 0x4000) as u64);
            walk::lemma_visits_monotone(self.table.tree(*mem), true, lo, lo, lo + 1);
            walk::lemma_needed_bound(self.table.tree(*mem), lo, lo + 1);
        }
        let out = self.table.map_pages(mem, v..v + 0x4000, frame, access, false);
        proof {
            let t0 = s0.table.tree(m0);
            let t = self.table.tree(*mem);
            let edit = s0.table.mapping(frame, access, false);
            let stop = if out is Ok {
                lo + 1
            } else {
                choose|stop: int|
                    {
                        &&& lo <= stop < lo + 1
                        &&& walk::needed(t0, lo, stop) <= m0.free@.len() < walk::needed(
                            t0,
                            lo,
                            stop + 1,
                        )
                        &&& #[trigger] walk::outcome(t0, t, true, edit, lo, stop)
                    }
            };
            assert(walk::outcome(t0, t, true, edit, lo, stop));
            assert forall|q: int| tables::in_tree(q) implies #[trigger] self.entry(*mem, q) == if out
                is Ok && q == lo && !t0.blocked(q) {
                frame | Self::bits(access)
            } else {
                s0.entry(m0, q)
            } by {
                assert(t.value(q) == if lo <= q < stop && walk::visited(t0, true, q) {
                    walk::edited(edit, walk::visits(t0, true, lo, q), t0.value(q))
                } else {
                    t0.value(q)
                });
                if q == lo {
                    assert(walk::visits(t0, true, lo, q) == 0);
                }
            }
        }
        out
    }

    /// Removes the mappings of a range.
    pub(crate) fn unmap_range(&mut self, mem: &mut TableMemory, start: u64, end: u64)
        requires
            old(self).wf(*old(mem)),
            start % 0x4000 == 0,
            end % 0x4000 == 0,
            FIRMWARE_START <= start <= end,
        ensures
            old(self).tables_kept(*old(mem), *final(self), *final(mem)),
            final(self).same_but_walked(*old(self)),
            final(mem).free@ == old(mem).free@,
            forall|q: int|
                tables::in_tree(q) ==> #[trigger] final(self).entry(*final(mem), q) == if Self::page_of(
                    start as int,
                ) <= q < Self::page_of(end as int) {
                    0
                } else {
                    old(self).entry(*old(mem), q)
                },
    {
        let ghost s0 = *self;
        let ghost m0 = *mem;
        let ghost lo = Self::page_of(start as int);
        let ghost hi = Self::page_of(end as int);
        proof {
            if start < end {
                self.lemma_range_of(*mem, start, end);
            }
        }
        let done = self.table.unmap_pages(mem, start..end);
        proof {
            let t0 = s0.table.tree(m0);
            let t = self.table.tree(*mem);
            if start < end {
                assert(walk::extends(t0, t));
                assert forall|q: int| tables::in_tree(q) implies #[trigger] self.entry(*mem, q)
                    == if lo <= q < hi {
                    0
                } else {
                    s0.entry(m0, q)
                } by {
                    assert(t.value(q) == if lo <= q < hi && walk::visited(t0, false, q) {
                        walk::edited(
                            walk::Edit::Clear,
                            walk::visits(t0, false, lo, q),
                            t0.value(q),
                        )
                    } else {
                        t0.value(q)
                    });
                }
            } else {
                walk::lemma_framed_refl(t0);
            }
        }
    }

    /// Why a page cannot be mapped: it is mapped already, or outside the firmware half.
    pub open spec fn conflict(self, mem: TableMemory, v: int) -> Option<Error> {
        if v < FIRMWARE_START || v + 0x4000 > FIRMWARE_END {
            Some(Error::EINVAL)
        } else if tables::is_valid(self.entry(mem, Self::page_of(v))) {
            Some(Error::EEXIST)
        } else {
            None
        }
    }

    /// The first conflict among the pages `k..n` from an address on.
    pub open spec fn first_conflict(self, mem: TableMemory, va: int, k: int, n: int) -> Option<Error>
        decreases n - k,
    {
        if k >= n {
            None
        } else if self.conflict(mem, va + k * 0x4000) is Some {
            self.conflict(mem, va + k * 0x4000)
        } else {
            self.first_conflict(mem, va, k + 1, n)
        }
    }

    /// Finds the first conflict among the pages of a range.
    pub(crate) fn find_conflict(&mut self, mem: &mut TableMemory, va: u64, n: u64) -> (out: Option<Error>)
        requires
            old(self).wf(*old(mem)),
            va % 0x4000 == 0,
            va + n * 0x4000 <= u64::MAX,
        ensures
            final(self).wf(*final(mem)),
            final(self).same_but_walked(*old(self)),
            final(mem).map() == old(mem).map(),
            final(mem).free@ == old(mem).free@,
            out == old(self).first_conflict(*old(mem), va as int, 0, n as int),
            out is None && n > 0 ==> FIRMWARE_START <= va && va + n * 0x4000 <= FIRMWARE_END,
            out is None ==> forall|q: int|
                Self::page_of(va as int) <= q < Self::page_of(va as int) + n ==> !tables::is_valid(
                    #[trigger] old(self).entry(*old(mem), q),
                ),
    {
        let ghost s0 = *self;
        let ghost m0 = *mem;
        let ghost first = Self::page_of(va as int);
        let mut k: u64 = 0;
        while k < n
            invariant
                k <= n,
                va % 0x4000 == 0,
                va + n * 0x4000 <= u64::MAX,
                s0 == *old(self),
                m0 == *old(mem),
                first == Self::page_of(va as int),
                s0.wf(m0),
                self.wf(*mem),
                self.same_but_walked(s0),
                mem.map() == m0.map(),
                mem.free@ == m0.free@,
                k > 0 ==> FIRMWARE_START <= va && va + k * 0x4000 <= FIRMWARE_END,
                s0.first_conflict(m0, va as int, 0, n as int) == s0.first_conflict(
                    m0,
                    va as int,
                    k as int,
                    n as int,
                ),
                forall|q: int|
                    first <= q < first + k ==> !tables::is_valid(#[trigger] s0.entry(m0, q)),
            decreases n - k,
        {
            let ghost s1 = *self;
            let ghost m1 = *mem;
            let v: u64 = va + k * 0x4000;
            proof {
                if FIRMWARE_START <= v {
                    self.lemma_page_of(*mem, v);
                }
            }
            let found = self.table.translate(mem, v);
            proof {
                assert(self.table.tree(*mem) == s0.table.tree(m0));
                assert(s1.table.tree(m1) == s0.table.tree(m0));
            }
            match found {
                Err(e) => {
                    return Some(e);
                },
                Ok(Some(_)) => {
                    return Some(Error::EEXIST);
                },
                Ok(None) => {},
            }
            assert(s0.conflict(m0, va + k * 0x4000) is None);
            assert(Self::page_of(v as int) == first + k);
            k += 1;
        }
        None
    }

    /// Whether a range meets a region.
    pub open spec fn meets_region(self, start: int, end: int) -> bool {
        exists|i: int|
            0 <= i < self.regions@.len() && (#[trigger] self.regions@[i]).va < end && start
                < self.regions@[i].end()
    }

    /// Where a region goes to keep the order, unless it meets another one.
    fn place_for(&self, start: u64, end: u64) -> (out: Option<usize>)
        requires
            ordered(self.regions@),
            start < end,
        ensures
            match out {
                None => self.meets_region(start as int, end as int),
                Some(at) => {
                    &&& !self.meets_region(start as int, end as int)
                    &&& at <= self.regions@.len()
                    &&& forall|i: int| 0 <= i < at ==> (#[trigger] self.regions@[i]).end() <= start
                    &&& forall|i: int|
                        at <= i < self.regions@.len() ==> end <= (#[trigger] self.regions@[i]).va
                },
            },
    {
        let mut at: usize = 0;
        while at < self.regions.len()
            invariant_except_break
                at <= self.regions@.len(),
                ordered(self.regions@),
                start < end,
                forall|i: int| 0 <= i < at ==> (#[trigger] self.regions@[i]).end() <= start,
            ensures
                at <= self.regions@.len(),
                forall|i: int| 0 <= i < at ==> (#[trigger] self.regions@[i]).end() <= start,
                forall|i: int|
                    at <= i < self.regions@.len() ==> end <= (#[trigger] self.regions@[i]).va,
            decreases self.regions@.len() - at,
        {
            assert(self.regions@[at as int].wf());
            let base: u64 = self.regions[at].va;
            let last: u64 = base + self.regions[at].pages.len() as u64 * 0x4000;
            if base < end && start < last {
                return None;
            }
            if base >= end {
                proof {
                    assert forall|i: int| at <= i < self.regions@.len() implies end <= (
                    #[trigger] self.regions@[i]).va by {
                        if i > at {
                            assert(self.regions@[at as int].end() <= self.regions@[i].va);
                        }
                    }
                }
                break;
            }
            at += 1;
        }
        Some(at)
    }

    /// Backs a range with frames of a pool and maps it.
    #[verifier::rlimit(60)]
    pub fn allocate(
        &mut self,
        mem: &mut TableMemory,
        frames: &mut Vec<u64>,
        va: u64,
        size: u64,
        access: Prot,
    ) -> (out: Result<(), Error>)
        requires
            old(self).wf(*old(mem)),
            crate::space::frames_ok(old(frames)@),
        ensures
            final(self).wf(*final(mem)),
            final(self).external@ == old(self).external@,
            ({
                let n = size as int / 0x4000;
                let f0 = old(frames)@;
                let untouched = final(self).same_but_walked(*old(self)) && final(mem).map()
                    == old(mem).map() && final(mem).free@ == old(mem).free@ && final(frames)@ == f0;
                if size == 0 || va % 0x4000 != 0 || size % 0x4000 != 0 || va + size > u64::MAX {
                    out == Err::<(), Error>(Error::EINVAL) && untouched
                } else if old(self).meets_region(va as int, va + size) {
                    out == Err::<(), Error>(Error::EEXIST) && untouched
                } else if old(self).first_conflict(*old(mem), va as int, 0, n) is Some {
                    out == Err::<(), Error>(
                        old(self).first_conflict(*old(mem), va as int, 0, n)->0,
                    ) && untouched
                } else if f0.len() < n {
                    out == Err::<(), Error>(Error::ENOMEM) && untouched
                } else {
                    &&& old(self).tables_kept(*old(mem), *final(self), *final(mem))
                    &&& match out {
                        Ok(_) => old(self).allocated(
                            *old(mem),
                            f0,
                            *final(self),
                            *final(mem),
                            final(frames)@,
                            va,
                            n,
                            access,
                        ) && final(mem).free@.len() + 2 * n >= old(mem).free@.len(),
                        Err(e) => {
                            &&& e == Error::ENOMEM
                            &&& old(mem).free@.len() < 2 * n
                            &&& final(self).same_but_walked(*old(self))
                            &&& final(frames)@ == f0
                            &&& forall|q: int|
                                tables::in_tree(q) ==> #[trigger] final(self).entry(*final(mem), q)
                                    == old(self).entry(*old(mem), q) || (final(self).entry(
                                    *final(mem),
                                    q,
                                ) == 0 && Self::page_of(va as int) <= q < Self::page_of(va as int)
                                    + n)
                        },
                    }
                }
            }),
    {
        if size == 0 || va % 0x4000 != 0 || size % 0x4000 != 0 {
            return Err(Error::EINVAL);
        }
        let end: u64 = match va.checked_add(size) {
            None => {
                return Err(Error::EINVAL);
            },
            Some(end) => end,
        };
        let at: usize = match self.place_for(va, end) {
            None => {
                return Err(Error::EEXIST);
            },
            Some(at) => at,
        };
        let n: u64 = size / 0x4000;
        let ghost s0 = *self;
        let ghost m0 = *mem;
        let ghost f0 = frames@;
        match self.find_conflict(mem, va, n) {
            Some(e) => {
                return Err(e);
            },
            None => {},
        }
        if (frames.len() as u64) < n {
            return Err(Error::ENOMEM);
        }
        let ghost first = Self::page_of(va as int);
        let ghost bits = Self::bits(access);
        let mut pages: Vec<u64> = Vec::new();
        let mut dirty: Vec<bool> = Vec::new();
        let mut k: u64 = 0;
        while k < n
            invariant
                k <= n <= f0.len(),
                frames@ == f0,
                pages@ == popped(f0, k as int),
                dirty@ == Seq::new(k as nat, |i: int| true),
            decreases n - k,
        {
            pages.push(frames[frames.len() - 1 - k as usize]);
            dirty.push(true);
            k += 1;
            assert(pages@ =~= popped(f0, k as int));
            assert(dirty@ =~= Seq::new(k as nat, |i: int| true));
        }
        k = 0;
        assert(self.table.tree(*mem) == s0.table.tree(m0));
        proof {
            walk::lemma_framed_refl(s0.table.tree(m0));
        }
        while k < n
            invariant
                k <= n <= f0.len(),
                n == size / 0x4000,
                size % 0x4000 == 0,
                size > 0,
                va % 0x4000 == 0,
                va + size == end,
                FIRMWARE_START <= va,
                end <= FIRMWARE_END,
                s0 == *old(self),
                m0 == *old(mem),
                f0 == old(frames)@,
                frames@ == f0,
                crate::space::frames_ok(f0),
                pages@ == popped(f0, n as int),
                first == Self::page_of(va as int),
                bits == Self::bits(access),
                s0.wf(m0),
                !s0.meets_region(va as int, va + size),
                s0.first_conflict(m0, va as int, 0, n as int) is None,
                s0.tables_kept(m0, *self, *mem),
                self.same_but_walked(s0),
                mem.free@.len() + 2 * k >= m0.free@.len(),
                forall|q: int|
                    tables::in_tree(q) ==> #[trigger] self.entry(*mem, q) == if first <= q < first + k
                        && !s0.table.tree(m0).blocked(q) {
                        popped(f0, n as int)[q - first] | bits
                    } else {
                        s0.entry(m0, q)
                    },
            decreases n - k,
        {
            let ghost s1 = *self;
            let ghost m1 = *mem;
            let v: u64 = va + k * 0x4000;
            let frame: u64 = pages[k as usize];
            proof {
                assert(frame == f0[f0.len() - 1 - k]);
                assert(tables::frame_of(frame, 0x3ff_ffff_ffff) == frame);
                crate::space::lemma_frame_aligned(frame);
                assert(Self::page_of(v as int) == first + k);
            }
            let mapped = self.map_one(mem, v, frame, access);
            proof {
                lemma_kept_trans(s0, m0, s1, m1, *self, *mem);
                assert forall|q: int| tables::in_tree(q) implies #[trigger] self.entry(*mem, q)
                    == if first <= q < first + k + (if mapped is Ok {
                    1int
                } else {
                    0
                }) && !s0.table.tree(m0).blocked(q) {
                    popped(f0, n as int)[q - first] | bits
                } else {
                    s0.entry(m0, q)
                } by {
                    assert(s1.table.tree(m1).blocked(q) == s0.table.tree(m0).blocked(q));
                    assert(s1.entry(m1, q) == if first <= q < first + k && !s0.table.tree(
                        m0,
                    ).blocked(q) {
                        popped(f0, n as int)[q - first] | bits
                    } else {
                        s0.entry(m0, q)
                    });
                }
            }
            match mapped {
                Err(e) => {
                    let ghost s2 = *self;
                    let ghost m2 = *mem;
                    self.unmap_range(mem, va, v);
                    proof {
                        lemma_kept_trans(s0, m0, s2, m2, *self, *mem);
                        assert forall|q: int| tables::in_tree(q) implies (#[trigger] self.entry(
                            *mem,
                            q,
                        )) == s0.entry(m0, q) || (self.entry(*mem, q) == 0 && first <= q < first
                            + n) by {
                            assert(s2.entry(m2, q) == if first <= q < first + k
                                && !s0.table.tree(m0).blocked(q) {
                                popped(f0, n as int)[q - first] | bits
                            } else {
                                s0.entry(m0, q)
                            });
                        }
                    }
                    return Err(e);
                },
                Ok(_) => {},
            }
            k += 1;
        }
        let count: usize = frames.len() - n as usize;
        frames.truncate(count);
        let region = FirmwareRegion { va, pages, dirty, pending: true };
        let ghost before = self.regions@;
        let ghost s3 = *self;
        self.regions.insert(at, region);
        self.dirty_regions.push(va);
        proof {
            lemma_ordered_insert(before, at as int, region);
            assert(self.regions@[at as int] == region);
            assert(self.regions@ == s0.regions@.insert(at as int, self.regions@[at as int]));
            assert(frames@ =~= f0.take(f0.len() - n));
            assert forall|q: int| tables::in_tree(q) implies #[trigger] self.entry(*mem, q) == if first
                <= q < first + n && !s0.table.tree(m0).blocked(q) {
                popped(f0, n as int)[q - first] | bits
            } else {
                s0.entry(m0, q)
            } by {
                assert(self.entry(*mem, q) == s3.entry(*mem, q));
            }
            assert(region.dirty@ =~= Seq::new(n as nat, |i: int| true));
        }
        Ok(())
    }

    /// What a range that was backed and mapped leaves behind.
    pub open spec fn allocated(
        self,
        m0: TableMemory,
        f0: Seq<u64>,
        after: FirmwareSpace,
        m: TableMemory,
        f: Seq<u64>,
        va: u64,
        n: int,
        access: Prot,
    ) -> bool {
        let first = Self::page_of(va as int);
        &&& f == f0.take(f0.len() - n)
        &&& after.dirty_regions@ == self.dirty_regions@.push(va)
        &&& exists|at: int|
            {
                &&& 0 <= at <= self.regions@.len()
                &&& after.regions@ == #[trigger] self.regions@.insert(at, after.regions@[at])
                &&& after.regions@[at].va == va
                &&& after.regions@[at].pages@ == popped(f0, n)
                &&& after.regions@[at].dirty@ == Seq::new(n as nat, |i: int| true)
                &&& after.regions@[at].pending
            }
        &&& forall|q: int|
            tables::in_tree(q) ==> #[trigger] after.entry(m, q) == if first <= q < first + n
                && !self.table.tree(m0).blocked(q) {
                popped(f0, n)[q - first] | Self::bits(access)
            } else {
                self.entry(m0, q)
            }
    }
}

/// The frames that a pool gives for the first `n` pages, in order.
pub open spec fn popped(frames: Seq<u64>, n: int) -> Seq<u64> {
    Seq::new(n as nat, |k: int| frames[frames.len() - 1 - k])
}

/// A region in its place keeps the order.
proof fn lemma_ordered_insert(regions: Seq<FirmwareRegion>, at: int, region: FirmwareRegion)
    requires
        ordered(regions),
        0 <= at <= regions.len(),
        region.wf(),
        forall|i: int| 0 <= i < at ==> (#[trigger] regions[i]).end() <= region.va,
        forall|i: int| at <= i < regions.len() ==> region.end() <= (#[trigger] regions[i]).va,
    ensures
        ordered(regions.insert(at, region)),
{
    let next = regions.insert(at, region);
    assert forall|i: int| 0 <= i < next.len() implies (#[trigger] next[i]).wf() by {
        if i < at {
            assert(next[i] == regions[i]);
        } else if i > at {
            assert(next[i] == regions[i - 1]);
        }
    }
    assert forall|i: int, j: int| 0 <= i < j < next.len() implies (#[trigger] next[i]).end() <= (
    #[trigger] next[j]).va by {
        if j < at {
            assert(next[i] == regions[i] && next[j] == regions[j]);
        } else if j == at {
            assert(next[i] == regions[i]);
        } else if i == at {
            assert(next[j] == regions[j - 1]);
        } else if i < at {
            assert(next[i] == regions[i] && next[j] == regions[j - 1]);
        } else {
            assert(next[i] == regions[i - 1] && next[j] == regions[j - 1]);
        }
    }
}

/// Tables that are kept twice are kept.
pub(crate) proof fn lemma_kept_trans(
    a: FirmwareSpace,
    ma: TableMemory,
    b: FirmwareSpace,
    mb: TableMemory,
    c: FirmwareSpace,
    mc: TableMemory,
)
    requires
        a.tables_kept(ma, b, mb),
        b.tables_kept(mb, c, mc),
    ensures
        a.tables_kept(ma, c, mc),
{
    let ta = a.table.tree(ma);
    let tb = b.table.tree(mb);
    let tc = c.table.tree(mc);
    walk::lemma_framed_trans(ta, tb, tc);
    walk::lemma_extends_trans(ta, tb, tc);
    assert forall|q: int| tables::in_tree(q) implies #[trigger] tc.blocked(q) == ta.blocked(q) by {
        assert(tb.blocked(q) == ta.blocked(q));
    }
}

} // verus!
