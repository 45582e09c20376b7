//! Showing the timestamps of a client to the firmware.
use crate::client_stamps;
use crate::error::Error;
use crate::fwspace;
use crate::fwspace::{FirmwareSpace, FIRMWARE_START};
use crate::fwspace_ext;
use crate::mapping::{Extent, Segment};
use crate::prot::prot_fw_shared_rw;
use crate::tables;
use crate::tables::{TableMemory, Tree};
use crate::walk;
use core::ops::Range;
use vstd::prelude::*;

verus! {

/// Whether a page of the firmware belongs to an extent.
pub open spec fn in_part(part: Extent, page: int) -> bool {
    FirmwareSpace::page_of(part.start as int) <= page < FirmwareSpace::page_of(part.end as int)
}

/// The entry of a page of a range that shows consecutive pages. An entry of the loader that stands in the
/// way is left alone, and what would have gone there goes to the next page.
pub open spec fn shown_at(before: FirmwareSpace, m0: TableMemory, physical: int, first: int, page: int) -> u64 {
    if before.table.tree(m0).blocked(page) {
        before.entry(m0, page)
    } else {
        ((physical + walk::visits(before.table.tree(m0), true, first, page) * 0x4000) as u64)
            | FirmwareSpace::bits(prot_fw_shared_rw())
    }
}

/// Whether the pages of some extents show what is behind them.
pub open spec fn parts_shown(
    before: FirmwareSpace,
    m0: TableMemory,
    space: FirmwareSpace,
    mem: TableMemory,
    parts: Seq<Extent>,
) -> bool {
    forall|k: int, q: int|
        0 <= k < parts.len() && #[trigger] in_part(parts[k], q) ==> space.entry(mem, q) == shown_at(
            before,
            m0,
            parts[k].physical as int,
            FirmwareSpace::page_of(parts[k].start as int),
            q,
        )
}

/// Where no entry of the loader stands in the way of a range, its pages show the buffer one after the
/// other.
pub proof fn lemma_open_range_shown(
    before: FirmwareSpace,
    m0: TableMemory,
    space: FirmwareSpace,
    mem: TableMemory,
    parts: Seq<Extent>,
    k: int,
    page: int,
)
    requires
        parts_shown(before, m0, space, mem, parts),
        0 <= k < parts.len(),
        in_part(parts[k], page),
        open_range(before, m0, parts[k].start as int, parts[k].end as int),
    ensures
        space.entry(mem, page) == ((parts[k].physical + (page - FirmwareSpace::page_of(
            parts[k].start as int,
        )) * 0x4000) as u64) | FirmwareSpace::bits(prot_fw_shared_rw()),
{
    let tree = before.table.tree(m0);
    let first = FirmwareSpace::page_of(parts[k].start as int);
    assert(!tree.blocked(page));
    assert forall|q: int| first <= q < page implies #[trigger] walk::visited(tree, true, q) by {
        assert(!tree.blocked(q));
    }
    walk::lemma_visits_all(tree, true, first, page);
}

/// The ranges of some extents.
pub open spec fn spans(parts: Seq<Extent>) -> Seq<(u64, u64)> {
    Seq::new(parts.len(), |k: int| (parts[k].start, parts[k].end))
}

/// Whether no entry of the loader stands in the way of a range.
pub open spec fn open_range(space: FirmwareSpace, mem: TableMemory, start: int, end: int) -> bool {
    forall|q: int|
        FirmwareSpace::page_of(start) <= q < FirmwareSpace::page_of(end)
            ==> !#[trigger] space.table.tree(mem).blocked(q)
}

/// Whether segments have addresses.
pub open spec fn segments_end(segments: Seq<Segment>) -> bool {
    forall|i: int|
        0 <= i < segments.len() ==> (#[trigger] segments[i]).address + segments[i].length <= u64::MAX
}

impl FirmwareSpace {
    /// Why a part of a buffer cannot be shown at an address.
    pub open spec fn part_fault(self, mem: TableMemory, va: int, pa: int, size: int) -> Option<Error> {
        if size % 0x4000 != 0 || pa % 0x4000 != 0 {
            Some(Error::EINVAL)
        } else {
            self.first_conflict(mem, va, 0, size / 0x4000)
        }
    }

    /// Why the firmware cannot be shown a buffer from some segment on: a part of it is not made of whole
    /// pages, its place is taken, or the buffer is too short.
    pub open spec fn stamp_fault(
        self,
        mem: TableMemory,
        segments: Seq<Segment>,
        i: int,
        offset: int,
        va: int,
        end: int,
    ) -> Option<Error>
        decreases segments.len() - i,
    {
        if i < 0 || i >= segments.len() {
            Some(Error::EIO)
        } else if offset >= segments[i].length {
            self.stamp_fault(mem, segments, i + 1, offset - segments[i].length, va, end)
        } else {
            let left = segments[i].length - offset;
            let size = if left < end - va {
                left
            } else {
                end - va
            };
            let fault = self.part_fault(mem, va, segments[i].address + offset, size);
            if fault is Some {
                fault
            } else if va + size == end {
                None
            } else {
                self.stamp_fault(mem, segments, i + 1, 0, va + size, end)
            }
        }
    }

    /// Pages that are as they were have the conflicts they had.
    proof fn lemma_conflicts_ahead(
        self,
        m0: TableMemory,
        after: FirmwareSpace,
        m: TableMemory,
        va: int,
        k: int,
        n: int,
    )
        requires
            0 <= k,
            FIRMWARE_START <= va,
            va % 0x4000 == 0,
            forall|q: int|
                tables::in_tree(q) && Self::page_of(va) <= q ==> #[trigger] after.entry(m, q)
                    == self.entry(m0, q),
        ensures
            after.first_conflict(m, va, k, n) == self.first_conflict(m0, va, k, n),
        decreases n - k,
    {
        if k < n {
            let v = va + k * 0x4000;
            if v + 0x4000 <= fwspace::FIRMWARE_END {
                assert(tables::in_tree(Self::page_of(v)));
                assert(after.entry(m, Self::page_of(v)) == self.entry(m0, Self::page_of(v)));
            }
            self.lemma_conflicts_ahead(m0, after, m, va, k + 1, n);
        }
    }

    /// What showing a part changes.
    proof fn lemma_part_mapped(
        self,
        m0: TableMemory,
        after: FirmwareSpace,
        m: TableMemory,
        pa: u64,
        lo: int,
        n: int,
        stop: int,
    )
        requires
            self.wf(m0),
            after.wf(m),
            0 <= lo <= stop <= lo + n,
            lo + n <= tables::PAGES,
            walk::outcome(
                self.table.tree(m0),
                after.table.tree(m),
                true,
                self.table.mapping(pa, prot_fw_shared_rw(), false),
                lo,
                stop,
            ),
        ensures
            forall|q: int|
                tables::in_tree(q) && !(lo <= q < lo + n) ==> #[trigger] after.entry(m, q) == self.entry(
                    m0,
                    q,
                ),
            forall|q: int|
                lo <= q < stop ==> #[trigger] after.entry(m, q) == shown_at(self, m0, pa as int, lo, q),
    {
        let t0 = self.table.tree(m0);
        let t = after.table.tree(m);
        let edit = self.table.mapping(pa, prot_fw_shared_rw(), false);
        assert forall|q: int| tables::in_tree(q) && !(lo <= q < lo + n) implies #[trigger] after.entry(
            m,
            q,
        ) == self.entry(m0, q) by {
            assert(t.value(q) == t0.value(q));
        }
        assert forall|q: int| lo <= q < stop implies #[trigger] after.entry(m, q) == shown_at(
            self,
            m0,
            pa as int,
            lo,
            q,
        ) by {
            assert(tables::in_tree(q));
            assert(t.value(q) == if walk::visited(t0, true, q) {
                walk::edited(edit, walk::visits(t0, true, lo, q), t0.value(q))
            } else {
                t0.value(q)
            });
        }
    }

    /// Pages without a conflict lie in the half of the firmware.
    proof fn lemma_inside(self, mem: TableMemory, va: int, n: int)
        requires
            0 < n,
            FIRMWARE_START <= va,
            va % 0x4000 == 0,
            self.first_conflict(mem, va, 0, n) is None,
        ensures
            va + n * 0x4000 <= fwspace::FIRMWARE_END,
            0 <= Self::page_of(va),
            Self::page_of(va) + n <= tables::PAGES,
    {
        self.lemma_last_conflict(mem, va, 0, n);
    }

    /// Where no page has a conflict, the last one has none.
    proof fn lemma_last_conflict(self, mem: TableMemory, va: int, k: int, n: int)
        requires
            0 <= k < n,
            self.first_conflict(mem, va, k, n) is None,
        ensures
            self.conflict(mem, va + (n - 1) * 0x4000) is None,
        decreases n - k,
    {
        if k + 1 < n {
            self.lemma_last_conflict(mem, va, k + 1, n);
        }
    }

    /// What is kept whether or not all parts of a buffer could be shown in a range.
    pub open spec fn stamps_begun(
        self,
        m0: TableMemory,
        after: FirmwareSpace,
        m: TableMemory,
        start: int,
        end: int,
    ) -> bool {
        &&& self.tables_kept(m0, after, m)
        &&& after.regions@ == self.regions@
        &&& after.dirty_regions@ == self.dirty_regions@
        &&& forall|q: int|
            tables::in_tree(q) && !(Self::page_of(start) <= q < Self::page_of(end))
                ==> #[trigger] after.entry(m, q) == self.entry(m0, q)
    }

    /// What is left when a part of a buffer could be shown at an address, or could not.
    pub open spec fn part_done(
        self,
        m0: TableMemory,
        after: FirmwareSpace,
        m: TableMemory,
        va: int,
        pa: int,
        size: int,
        out: Result<(), Error>,
    ) -> bool {
        let lo = Self::page_of(va);
        let n = size / 0x4000;
        let fault = self.part_fault(m0, va, pa, size);
        let borrowed = self.external@.push((va as u64, (va + size) as u64));
        &&& self.stamps_begun(m0, after, m, va, va + size)
        &&& match out {
            Ok(_) => {
                &&& fault is None
                &&& 0 <= lo
                &&& lo + n <= tables::PAGES
                &&& after.external@ == borrowed
                &&& m.free@.len() + 2 * n >= m0.free@.len()
                &&& forall|q: int|
                    lo <= q < lo + n ==> #[trigger] after.entry(m, q) == shown_at(self, m0, pa, lo, q)
            },
            Err(e) => if fault is Some {
                &&& fault == Some(e)
                &&& after.external@ == self.external@
            } else {
                &&& e == Error::ENOMEM
                &&& m0.free@.len() < 2 * n
                &&& after.external@ == borrowed
            },
        }
    }

    /// Shows a part of a buffer at an address.
    fn map_part(&mut self, mem: &mut TableMemory, va: u64, pa: u64, size: u64) -> (out: Result<(), Error>)
        requires
            old(self).wf(*old(mem)),
            size > 0,
            va % 0x4000 == 0,
            FIRMWARE_START <= va,
            va + size <= u64::MAX,
            pa + size <= u64::MAX,
        ensures
            old(self).part_done(
                *old(mem),
                *final(self),
                *final(mem),
                va as int,
                pa as int,
                size as int,
                out,
            ),
    {
        let ghost s1 = *self;
        let ghost m1 = *mem;
        let out = self.map_external(mem, va, pa, size, prot_fw_shared_rw());
        proof {
            let n = size as int / 0x4000;
            let lo = Self::page_of(va as int);
            if s1.part_fault(m1, va as int, pa as int, size as int) is None {
                let t0 = s1.table.tree(m1);
                let edit = s1.table.mapping(pa, prot_fw_shared_rw(), false);
                let stop = if out is Ok {
                    lo + n
                } else {
                    choose|stop: int|
                        lo <= stop < lo + n && #[trigger] walk::outcome(
                            t0,
                            self.table.tree(*mem),
                            true,
                            edit,
                            lo,
                            stop,
                        )
                };
                s1.lemma_inside(m1, va as int, n);
                s1.lemma_part_mapped(m1, *self, *mem, pa, lo, n, stop);
                walk::lemma_needed_bound(t0, lo, lo + n);
                assert(Self::page_of(va + size) == lo + n);
            } else {
                assert(self.table.tree(*mem) == s1.table.tree(m1));
                walk::lemma_framed_refl(s1.table.tree(m1));
            }
        }
        out
    }

    /// What is left when a buffer could be shown in a range, or could not. `place` is the offset in the
    /// buffer, and the start and end of the range.
    pub open spec fn stamps_done(
        self,
        m0: TableMemory,
        after: FirmwareSpace,
        m: TableMemory,
        segments: Seq<Segment>,
        place: (int, int, int),
        out: Result<(), Error>,
    ) -> bool {
        let (offset, base, end) = place;
        let parts = client_stamps::stamp_extents_of(segments, 0, offset, base, end);
        let fault = self.stamp_fault(m0, segments, 0, offset, base, end);
        match out {
            Ok(_) => {
                &&& fault is None
                &&& parts is Some
                &&& after.external@ == self.external@ + spans(parts->0)
                &&& m.free@.len() + 2 * ((end - base) / 0x4000) >= m0.free@.len()
                &&& parts_shown(self, m0, after, m, parts->0)
            },
            Err(e) => fault == Some(e) || (e == Error::ENOMEM && m0.free@.len() < 2 * ((end - base)
                / 0x4000)),
        }
    }

    /// The apertures that are not inside a range.
    pub open spec fn borrowed_outside(self, start: int, end: int) -> Seq<(u64, u64)> {
        self.external@.filter(|a: (u64, u64)| fwspace_ext::outside((start as u64..end as u64), a))
    }

    /// How far the parts of a buffer are shown: `at` is the next segment, the offset in it, and the address
    /// where it goes.
    #[verifier::opaque]
    spec fn stamps_upto(
        self,
        m0: TableMemory,
        after: FirmwareSpace,
        m: TableMemory,
        segments: Seq<Segment>,
        place: (int, int, int),
        at: (int, int, int),
        done: Seq<Extent>,
    ) -> bool {
        let (offset, base, end) = place;
        let (i, skip, va) = at;
        let rest = client_stamps::stamp_extents_of(segments, i, skip, va, end);
        &&& 0 <= i <= segments.len()
        &&& 0 <= skip
        &&& FIRMWARE_START <= base <= va < end <= u64::MAX
        &&& base % 0x4000 == 0 && va % 0x4000 == 0 && end % 0x4000 == 0
        &&& client_stamps::stamp_extents_of(segments, 0, offset, base, end) == match rest {
            None => None,
            Some(rest) => Some(done + rest),
        }
        &&& self.stamp_fault(m0, segments, 0, offset, base, end) == self.stamp_fault(
            m0,
            segments,
            i,
            skip,
            va,
            end,
        )
        &&& self.stamps_begun(m0, after, m, base, va)
        &&& after.external@ == self.external@ + spans(done)
        &&& after.borrowed_outside(base, end) == self.borrowed_outside(base, end)
        &&& forall|k: int|
            0 <= k < done.len() ==> FIRMWARE_START <= (#[trigger] done[k]).start && done[k].end <= va
        &&& parts_shown(self, m0, after, m, done)
        &&& m.free@.len() + 2 * ((va - base) / 0x4000) >= m0.free@.len()
    }

    /// At the start nothing is shown.
    proof fn lemma_stamps_start(
        self,
        m0: TableMemory,
        segments: Seq<Segment>,
        offset: int,
        base: int,
        end: int,
    )
        requires
            self.wf(m0),
            0 <= offset,
            FIRMWARE_START <= base < end <= u64::MAX,
            base % 0x4000 == 0,
            end % 0x4000 == 0,
        ensures
            self.stamps_upto(m0, self, m0, segments, (offset, base, end), (0, offset, base), Seq::empty()),
    {
        reveal(FirmwareSpace::stamps_upto);
        let whole = client_stamps::stamp_extents_of(segments, 0, offset, base, end);
        walk::lemma_framed_refl(self.table.tree(m0));
        assert(Seq::<Extent>::empty() + whole->0 =~= whole->0);
        assert(self.external@ + spans(Seq::empty()) =~= self.external@);
    }

    /// A segment before the offset is passed over.
    proof fn lemma_stamps_skip(
        self,
        m0: TableMemory,
        after: FirmwareSpace,
        m: TableMemory,
        segments: Seq<Segment>,
        place: (int, int, int),
        at: (int, int, int),
        done: Seq<Extent>,
    )
        requires
            self.stamps_upto(m0, after, m, segments, place, at, done),
            at.0 < segments.len(),
            at.1 >= segments[at.0].length,
        ensures
            self.stamps_upto(
                m0,
                after,
                m,
                segments,
                place,
                (at.0 + 1, at.1 - segments[at.0].length, at.2),
                done,
            ),
    {
        reveal(FirmwareSpace::stamps_upto);
    }

    /// Without another segment the buffer is too short.
    proof fn lemma_stamps_end(
        self,
        m0: TableMemory,
        after: FirmwareSpace,
        m: TableMemory,
        segments: Seq<Segment>,
        place: (int, int, int),
        at: (int, int, int),
        done: Seq<Extent>,
    )
        requires
            self.stamps_upto(m0, after, m, segments, place, at, done),
            at.0 == segments.len(),
        ensures
            self.stamps_begun(m0, after, m, place.1, place.2),
            after.borrowed_outside(place.1, place.2) == self.borrowed_outside(place.1, place.2),
            self.stamps_done(m0, after, m, segments, place, Err(Error::EIO)),
    {
        reveal(FirmwareSpace::stamps_upto);
    }

    /// Two ranges that follow each other are shown together.
    proof fn lemma_begun_follow(
        self,
        m0: TableMemory,
        s1: FirmwareSpace,
        m1: TableMemory,
        s: FirmwareSpace,
        m: TableMemory,
        base: int,
        va: int,
        end: int,
    )
        requires
            base <= va <= end,
            self.stamps_begun(m0, s1, m1, base, va),
            s1.stamps_begun(m1, s, m, va, end),
        ensures
            self.stamps_begun(m0, s, m, base, end),
    {
        fwspace::lemma_kept_trans(self, m0, s1, m1, s, m);
        assert forall|q: int|
            tables::in_tree(q) && !(Self::page_of(base) <= q < Self::page_of(end)) implies #[trigger] s.entry(
            m,
            q,
        ) == self.entry(m0, q) by {
            assert(s1.entry(m1, q) == self.entry(m0, q));
        }
    }

    /// One more part is shown, and those before it still are.
    proof fn lemma_part_joins(
        self,
        m0: TableMemory,
        s1: FirmwareSpace,
        m1: TableMemory,
        s: FirmwareSpace,
        m: TableMemory,
        done: Seq<Extent>,
        part: Extent,
        base: int,
    )
        requires
            FIRMWARE_START <= base <= part.start <= part.end,
            part.start % 0x4000 == 0,
            (part.end - part.start) % 0x4000 == 0,
            self.stamps_begun(m0, s1, m1, base, part.start as int),
            s1.part_done(
                m1,
                s,
                m,
                part.start as int,
                part.physical as int,
                part.end - part.start,
                Ok(()),
            ),
            forall|k: int|
                0 <= k < done.len() ==> FIRMWARE_START <= (#[trigger] done[k]).start && done[k].end
                    <= part.start,
            parts_shown(self, m0, s1, m1, done),
        ensures
            parts_shown(self, m0, s, m, done.push(part)),
    {
        let lo = Self::page_of(part.start as int);
        let n = (part.end - part.start) / 0x4000;
        let all = done.push(part);
        assert(lo + n == Self::page_of(part.end as int));
        assert forall|k: int, q: int| 0 <= k < all.len() && #[trigger] in_part(all[k], q) implies s.entry(
            m,
            q,
        ) == shown_at(self, m0, all[k].physical as int, Self::page_of(all[k].start as int), q) by {
            if k < done.len() {
                assert(all[k] == done[k]);
                assert(in_part(done[k], q));
                assert(q < lo);
                assert(tables::in_tree(q));
                assert(s.entry(m, q) == s1.entry(m1, q));
            } else {
                assert(tables::in_tree(q));
                lemma_same_visits(s1.table.tree(m1), self.table.tree(m0), lo, q);
                assert(s1.entry(m1, q) == self.entry(m0, q));
                assert(s.entry(m, q) == shown_at(s1, m1, part.physical as int, lo, q));
            }
        }
    }

    /// What one more part does.
    #[verifier::rlimit(40)]
    proof fn lemma_stamps_part(
        self,
        m0: TableMemory,
        s1: FirmwareSpace,
        m1: TableMemory,
        s: FirmwareSpace,
        m: TableMemory,
        segments: Seq<Segment>,
        place: (int, int, int),
        at: (int, int, int),
        done: Seq<Extent>,
        size: u64,
        mapped: Result<(), Error>,
    )
        requires
            self.stamps_upto(m0, s1, m1, segments, place, at, done),
            segments_end(segments),
            at.0 < segments.len(),
            at.1 < segments[at.0].length,
            size == if segments[at.0].length - at.1 < place.2 - at.2 {
                segments[at.0].length - at.1
            } else {
                place.2 - at.2
            },
            s1.part_done(m1, s, m, at.2, segments[at.0].address + at.1, size as int, mapped),
        ensures
            s.wf(m),
            mapped is Err || at.2 + size == place.2 ==> {
                &&& self.stamps_begun(m0, s, m, place.1, place.2)
                &&& self.stamps_done(m0, s, m, segments, place, mapped)
                &&& mapped is Err ==> s.borrowed_outside(place.1, place.2) == self.borrowed_outside(
                    place.1,
                    place.2,
                )
            },
            mapped is Ok ==> (at.2 + size) % 0x4000 == 0,
            mapped is Ok && at.2 + size != place.2 ==> self.stamps_upto(
                m0,
                s,
                m,
                segments,
                place,
                (at.0 + 1, 0, at.2 + size),
                done.push(
                    Extent {
                        start: at.2 as u64,
                        end: (at.2 + size) as u64,
                        physical: (segments[at.0].address + at.1) as u64,
                    },
                ),
            ),
    {
        reveal(FirmwareSpace::stamps_upto);
        let (offset, base, end) = place;
        let (i, skip, va) = at;
        let pa = segments[i].address + skip;
        let lo = Self::page_of(va);
        let n = size as int / 0x4000;
        let part = Extent { start: va as u64, end: (va + size) as u64, physical: pa as u64 };
        assert(segments[i].address + segments[i].length <= u64::MAX);
        self.lemma_conflicts_ahead(m0, s1, m1, va, 0, n);
        lemma_filter_inside(s1.external@, (va as u64, (va + size) as u64), (base as u64..end as u64));
        self.lemma_begun_follow(m0, s1, m1, s, m, base, va, va + size);
        if mapped is Ok {
            let next = done.push(part);
            assert(s.external@ =~= self.external@ + spans(next));
            assert(n == (va + size - base) / 0x4000 - (va - base) / 0x4000);
            self.lemma_part_joins(m0, s1, m1, s, m, done, part, base);
            if va + size == end {
                assert(next =~= done + seq![part]);
            } else {
                let rest = client_stamps::stamp_extents_of(segments, i + 1, 0, va + size, end);
                if rest is Some {
                    assert(next + rest->0 =~= done + (seq![part] + rest->0));
                }
            }
        }
    }

    /// Shows a buffer in a range, part by part.
    fn map_stamps(
        &mut self,
        mem: &mut TableMemory,
        segments: &Vec<Segment>,
        offset: u64,
        base: u64,
        end: u64,
    ) -> (out: Result<(), Error>)
        requires
            old(self).wf(*old(mem)),
            base < end,
            base % 0x4000 == 0,
            end % 0x4000 == 0,
            FIRMWARE_START <= base,
            segments_end(segments@),
        ensures
            old(self).stamps_begun(*old(mem), *final(self), *final(mem), base as int, end as int),
            old(self).stamps_done(
                *old(mem),
                *final(self),
                *final(mem),
                segments@,
                (offset as int, base as int, end as int),
                out,
            ),
            out is Err ==> final(self).borrowed_outside(base as int, end as int) == old(
                self,
            ).borrowed_outside(base as int, end as int),
    {
        let ghost s0 = *self;
        let ghost m0 = *mem;
        let ghost mut done: Seq<Extent> = Seq::empty();
        let mut skip: u64 = offset;
        let mut va: u64 = base;
        let mut i: usize = 0;
        proof {
            s0.lemma_stamps_start(m0, segments@, offset as int, base as int, end as int);
        }
        while i < segments.len()
            invariant
                i <= segments@.len(),
                s0 == *old(self),
                m0 == *old(mem),
                self.wf(*mem),
                base <= va < end,
                va % 0x4000 == 0,
                FIRMWARE_START <= base,
                segments_end(segments@),
                s0.stamps_upto(
                    m0,
                    *self,
                    *mem,
                    segments@,
                    (offset as int, base as int, end as int),
                    (i as int, skip as int, va as int),
                    done,
                ),
            decreases segments@.len() - i,
        {
            let segment: Segment = segments[i];
            assert(segments@[i as int].address + segments@[i as int].length <= u64::MAX);
            if skip >= segment.length {
                proof {
                    s0.lemma_stamps_skip(
                        m0,
                        *self,
                        *mem,
                        segments@,
                        (offset as int, base as int, end as int),
                        (i as int, skip as int, va as int),
                        done,
                    );
                }
                skip = skip - segment.length;
                i += 1;
                continue ;
            }
            let left: u64 = segment.length - skip;
            let size: u64 = if left < end - va {
                left
            } else {
                end - va
            };
            let ghost s1 = *self;
            let ghost m1 = *mem;
            let mapped = self.map_part(mem, va, segment.address + skip, size);
            proof {
                s0.lemma_stamps_part(
                    m0,
                    s1,
                    m1,
                    *self,
                    *mem,
                    segments@,
                    (offset as int, base as int, end as int),
                    (i as int, skip as int, va as int),
                    done,
                    size,
                    mapped,
                );
            }
            match mapped {
                Err(e) => {
                    return Err(e);
                },
                Ok(()) => {},
            }
            if va + size == end {
                return Ok(());
            }
            proof {
                done = done.push(
                    Extent { start: va, end: (va + size) as u64, physical: (segment.address + skip) as u64 },
                );
            }
            skip = 0;
            va = va + size;
            i += 1;
        }
        proof {
            s0.lemma_stamps_end(
                m0,
                *self,
                *mem,
                segments@,
                (offset as int, base as int, end as int),
                (i as int, skip as int, va as int),
                done,
            );
        }
        Err(Error::EIO)
    }

    /// Shows a buffer to the firmware, from an offset on, in a range that was reserved for it. Where this
    /// fails, the range shows nothing.
    pub fn bind_stamps(
        &mut self,
        mem: &mut TableMemory,
        segments: &Vec<Segment>,
        offset: u64,
        base: u64,
        extent: u64,
    ) -> (out: Result<(), Error>)
        requires
            old(self).wf(*old(mem)),
            extent > 0,
            base % 0x4000 == 0,
            extent % 0x4000 == 0,
            FIRMWARE_START <= base,
            base + extent <= u64::MAX,
            segments_end(segments@),
        ensures
            old(self).stamps_begun(*old(mem), *final(self), *final(mem), base as int, base + extent),
            old(self).stamps_done(
                *old(mem),
                *final(self),
                *final(mem),
                segments@,
                (offset as int, base as int, base + extent),
                out,
            ),
            out is Err ==> {
                &&& final(self).external@ == old(self).borrowed_outside(base as int, base + extent)
                &&& forall|q: int|
                    tables::in_tree(q) && Self::page_of(base as int) <= q < Self::page_of(base + extent)
                        ==> #[trigger] final(self).entry(*final(mem), q) == 0
            },
    {
        let end: u64 = base + extent;
        let ghost s0 = *self;
        let ghost m0 = *mem;
        let out = self.map_stamps(mem, segments, offset, base, end);
        if out.is_err() {
            let ghost s1 = *self;
            let ghost m1 = *mem;
            let released = self.unmap_external(mem, base..end);
            proof {
                assert(released is Ok);
                fwspace::lemma_kept_trans(s0, m0, s1, m1, *self, *mem);
                assert forall|q: int|
                    tables::in_tree(q) && !(Self::page_of(base as int) <= q < Self::page_of(
                        end as int,
                    )) implies #[trigger] self.entry(*mem, q) == s0.entry(m0, q) by {
                    assert(s1.entry(m1, q) == s0.entry(m0, q));
                }
            }
        }
        out
    }
}

/// The parts of a buffer fill the range that shows it: they follow each other from its start to its end.
pub proof fn lemma_parts_fill(
    segments: Seq<Segment>,
    i: int,
    offset: int,
    va: int,
    end: int,
    parts: Seq<Extent>,
)
    requires
        client_stamps::stamp_extents_of(segments, i, offset, va, end) == Some(parts),
        0 <= offset,
        0 <= va < end <= u64::MAX,
    ensures
        parts.len() > 0,
        parts[0].start == va,
        parts.last().end == end,
        forall|k: int| 0 <= k < parts.len() ==> (#[trigger] parts[k]).start < parts[k].end,
        forall|k: int| 0 <= k < parts.len() - 1 ==> (#[trigger] parts[k]).end == parts[k + 1].start,
    decreases segments.len() - i,
{
    if offset >= segments[i].length {
        lemma_parts_fill(segments, i + 1, offset - segments[i].length, va, end, parts);
    } else {
        let left = segments[i].length - offset;
        let size = if left < end - va {
            left
        } else {
            end - va
        };
        if va + size != end {
            let rest = client_stamps::stamp_extents_of(segments, i + 1, 0, va + size, end)->0;
            lemma_parts_fill(segments, i + 1, 0, va + size, end, rest);
            assert(parts =~= seq![parts[0]] + rest);
            assert forall|k: int| 0 <= k < parts.len() implies (#[trigger] parts[k]).start < parts[k].end by {
                if k > 0 {
                    assert(parts[k] == rest[k - 1]);
                }
            }
            assert forall|k: int| 0 <= k < parts.len() - 1 implies (#[trigger] parts[k]).end == parts[k
                + 1].start by {
                assert(parts[k + 1] == rest[k]);
                if k > 0 {
                    assert(parts[k] == rest[k - 1]);
                }
            }
        }
    }
}

/// A range that is inside another does not count for what is outside of that.
proof fn lemma_filter_inside(all: Seq<(u64, u64)>, added: (u64, u64), range: Range<u64>)
    requires
        range.start <= added.0,
        added.1 <= range.end,
    ensures
        all.push(added).filter(|a: (u64, u64)| fwspace_ext::outside(range, a)) == all.filter(
            |a: (u64, u64)| fwspace_ext::outside(range, a),
        ),
{
    reveal(Seq::filter);
    assert(all.push(added).drop_last() =~= all);
}

/// What a walk visits depends on the entries that stand in its way alone.
proof fn lemma_same_visits(a: Tree, b: Tree, lo: int, hi: int)
    requires
        a.same_blocked(b),
        0 <= lo,
        hi <= tables::PAGES,
    ensures
        walk::visits(a, true, lo, hi) == walk::visits(b, true, lo, hi),
    decreases hi - lo,
{
    if lo < hi {
        assert(tables::in_tree(hi - 1));
        lemma_same_visits(a, b, lo, hi - 1);
    }
}

} // verus!
