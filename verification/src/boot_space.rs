//! Reserving the firmware's memory map.
use crate::bootmap;
use crate::bootmap::{rights, row_at, Sharing, REGIONS};
use crate::error::Error;
use crate::fwspace;
use crate::fwspace::{FirmwareSpace, FIRMWARE_END, FIRMWARE_START};
use crate::fwspace_ext;
use crate::space;
use crate::tables;
use crate::tables::TableMemory;
use crate::walk;
use vstd::prelude::*;

verus! {

/// Pages of the first regions of the map.
pub open spec fn pages_upto(k: int) -> int
    decreases k,
{
    if k <= 0 {
        0
    } else {
        pages_upto(k - 1) + bootmap::row(k - 1).1 / 0x4000
    }
}

/// Whether a page belongs to one of the first regions of the map.
pub open spec fn in_map(k: int, page: int) -> bool {
    exists|i: int| 0 <= i < k && #[trigger] in_row(i, page)
}

/// Whether a page belongs to a region of the map.
pub open spec fn in_row(i: int, page: int) -> bool {
    FirmwareSpace::page_of(bootmap::row(i).0 as int) <= page < FirmwareSpace::page_of(
        bootmap::row_end(i),
    )
}

proof fn lemma_pages_rise(i: int, k: int)
    requires
        0 <= i <= k <= REGIONS,
    ensures
        0 <= pages_upto(i) <= pages_upto(k),
    decreases k,
{
    if i < k {
        lemma_pages_rise(i, k - 1);
    } else if k > 0 {
        lemma_pages_rise(k - 1, k - 1);
    }
}

/// Regions of the map share no page.
proof fn lemma_rows_share_nothing(i: int, k: int, page: int)
    requires
        0 <= i < k < REGIONS,
        in_row(i, page),
    ensures
        !in_row(k, page),
{
    bootmap::lemma_regions_apart(i, k);
}

impl FirmwareSpace {
    /// Whether the regions are the first ones of the map.
    pub open spec fn holds_map(self, n: int) -> bool {
        &&& self.regions@.len() == n
        &&& forall|k: int|
            0 <= k < n ==> (#[trigger] self.regions@[k]).va == bootmap::row(k).0
                && self.regions@[k].pages@.len() * 0x4000 == bootmap::row(k).1
    }

    /// Whether a page of a region of the map is mapped already.
    pub open spec fn row_taken(self, mem: TableMemory, k: int) -> bool {
        exists|q: int| in_row(k, q) && tables::is_valid(#[trigger] self.entry(mem, q))
    }

    /// Why the map cannot be reserved from region `k` on, when those before it are: the first region with a
    /// page that is mapped already, or for which there are too few frames.
    pub open spec fn map_fault(self, mem: TableMemory, frames: int, k: int) -> Option<Error>
        decreases REGIONS - k,
    {
        if k >= REGIONS {
            None
        } else if self.row_taken(mem, k) {
            Some(Error::EEXIST)
        } else if frames < pages_upto(k + 1) {
            Some(Error::ENOMEM)
        } else {
            self.map_fault(mem, frames, k + 1)
        }
    }

    /// A region of the map meets a mapping exactly where one was there before the map.
    proof fn lemma_row_conflict(self, m0: TableMemory, s1: FirmwareSpace, m1: TableMemory, k: int)
        requires
            0 <= k < REGIONS,
            forall|q: int|
                tables::in_tree(q) && !in_map(k, q) ==> #[trigger] s1.entry(m1, q) == self.entry(m0, q),
        ensures
            ({
                let row = bootmap::row(k);
                s1.first_conflict(m1, row.0 as int, 0, row.1 as int / 0x4000) == if self.row_taken(m0, k) {
                    Some(Error::EEXIST)
                } else {
                    None
                }
            }),
    {
        let va = bootmap::row(k).0 as int;
        let n = bootmap::row(k).1 as int / 0x4000;
        lemma_row_facts(k);
        assert forall|q: int| in_row(k, q) implies #[trigger] s1.entry(m1, q) == self.entry(m0, q) by {
            lemma_page_in_tree(k, q);
            if in_map(k, q) {
                let i = choose|i: int| 0 <= i < k && #[trigger] in_row(i, q);
                lemma_rows_share_nothing(i, k, q);
            }
        }
        if s1.first_conflict(m1, va, 0, n) is Some {
            s1.lemma_conflict_is_mapped(m1, va, 0, n);
            let j = choose|j: int|
                0 <= j < n && tables::is_valid(#[trigger] s1.entry(m1, Self::page_of(va + j * 0x4000)));
            let q = Self::page_of(va + j * 0x4000);
            assert(in_row(k, q));
            assert(tables::is_valid(self.entry(m0, q)));
        } else if self.row_taken(m0, k) {
            let q = choose|q: int| in_row(k, q) && tables::is_valid(#[trigger] self.entry(m0, q));
            assert(s1.entry(m1, q) == self.entry(m0, q));
            s1.lemma_page_unmapped(m1, va, 0, n, q);
        }
    }

    /// A conflict in the firmware's half is a page that is mapped already.
    proof fn lemma_conflict_is_mapped(self, mem: TableMemory, va: int, k: int, n: int)
        requires
            0 <= k,
            FIRMWARE_START <= va,
            va + n * 0x4000 <= FIRMWARE_END,
            self.first_conflict(mem, va, k, n) is Some,
        ensures
            self.first_conflict(mem, va, k, n) == Some(Error::EEXIST),
            exists|j: int|
                k <= j < n && tables::is_valid(
                    #[trigger] self.entry(mem, Self::page_of(va + j * 0x4000)),
                ),
        decreases n - k,
    {
        if k < n {
            if self.conflict(mem, va + k * 0x4000) is Some {
                assert(va + k * 0x4000 + 0x4000 <= va + n * 0x4000);
                assert(tables::is_valid(self.entry(mem, Self::page_of(va + k * 0x4000))));
            } else {
                self.lemma_conflict_is_mapped(mem, va, k + 1, n);
            }
        }
    }

    /// Reserves the whole map. This fails where a page of it is mapped already, or where memory runs out.
    #[verifier::rlimit(40)]
    pub fn reserve_map(&mut self, mem: &mut TableMemory, frames: &mut Vec<u64>) -> (out: Result<(), Error>)
        requires
            old(self).wf(*old(mem)),
            old(self).regions@.len() == 0,
            space::frames_ok(old(frames)@),
        ensures
            final(self).wf(*final(mem)),
            final(self).external@ == old(self).external@,
            old(self).queue_ok() ==> final(self).queue_ok(),
            match out {
                Ok(_) => {
                    &&& old(self).map_fault(*old(mem), old(frames)@.len() as int, 0) is None
                    &&& old(self).tables_kept(*old(mem), *final(self), *final(mem))
                    &&& final(mem).free@.len() + 2 * pages_upto(REGIONS as int) >= old(mem).free@.len()
                    &&& final(self).holds_map(REGIONS as int)
                    &&& forall|k: int|
                        0 <= k < REGIONS ==> final(self).shows(*final(mem), #[trigger] bootmap::region(k))
                    &&& final(frames)@ == old(frames)@.take(
                        old(frames)@.len() - pages_upto(REGIONS as int),
                    )
                    &&& old(frames)@.len() >= pages_upto(REGIONS as int)
                    &&& forall|q: int|
                        tables::in_tree(q) && !in_map(REGIONS as int, q) ==> #[trigger] final(self).entry(
                            *final(mem),
                            q,
                        ) == old(self).entry(*old(mem), q)
                },
                Err(e) => {
                    &&& {
                        ||| old(self).map_fault(*old(mem), old(frames)@.len() as int, 0) == Some(e)
                        ||| e == Error::ENOMEM && old(mem).free@.len() < 2 * pages_upto(REGIONS as int)
                    }
                    &&& old(self).tables_kept(*old(mem), *final(self), *final(mem))
                    &&& exists|k: int|
                        {
                            &&& 0 <= k < REGIONS
                            &&& #[trigger] final(self).holds_map(k)
                            &&& final(frames)@ == old(frames)@.take(
                                old(frames)@.len() - pages_upto(k),
                            )
                        }
                    &&& forall|q: int|
                        tables::in_tree(q) && !in_map(REGIONS as int, q) ==> #[trigger] final(self).entry(
                            *final(mem),
                            q,
                        ) == old(self).entry(*old(mem), q)
                },
            },
    {
        let ghost s0 = *self;
        let ghost m0 = *mem;
        let ghost f0 = frames@;
        proof {
            assert(f0.take(f0.len() as int) =~= f0);
            walk::lemma_framed_refl(s0.table.tree(m0));
        }
        let mut k: usize = 0;
        while k < REGIONS
            invariant
                k <= REGIONS,
                s0 == *old(self),
                m0 == *old(mem),
                f0 == old(frames)@,
                self.wf(*mem),
                self.external@ == s0.external@,
                s0.queue_ok() ==> self.queue_ok(),
                s0.tables_kept(m0, *self, *mem),
                self.holds_map(k as int),
                s0.map_fault(m0, f0.len() as int, 0) == s0.map_fault(m0, f0.len() as int, k as int),
                forall|i: int| 0 <= i < k ==> self.shows(*mem, #[trigger] bootmap::region(i)),
                space::frames_ok(frames@),
                pages_upto(k as int) <= f0.len(),
                frames@ == f0.take(f0.len() - pages_upto(k as int)),
                mem.free@.len() + 2 * pages_upto(k as int) >= m0.free@.len(),
                forall|q: int|
                    tables::in_tree(q) && !in_map(k as int, q) ==> #[trigger] self.entry(*mem, q)
                        == s0.entry(m0, q),
            decreases REGIONS - k,
        {
            let ghost s1 = *self;
            let ghost m1 = *mem;
            let ghost f1 = frames@;
            let (va, size, sharing): (u64, u64, Sharing) = row_at(k);
            let ghost n = size as int / 0x4000;
            proof {
                lemma_pages_rise(k as int, REGIONS as int);
                lemma_pages_rise(k + 1, REGIONS as int);
                lemma_row_facts(k as int);
                assert(pages_upto(k + 1) == pages_upto(k as int) + n);
                s0.lemma_row_conflict(m0, s1, m1, k as int);
                assert(!s1.meets_region(va as int, va + size)) by {
                    if s1.meets_region(va as int, va + size) {
                        let i = choose|i: int|
                            0 <= i < s1.regions@.len() && (#[trigger] s1.regions@[i]).va < va + size && va
                                < s1.regions@[i].end();
                        bootmap::lemma_regions_apart(i, k as int);
                    }
                }
            }
            match self.allocate(mem, frames, va, size, rights(sharing)) {
                Err(e) => {
                    proof {
                        assert(self.holds_map(k as int));
                        if s1.first_conflict(m1, va as int, 0, n) is Some || f1.len() < n {
                            assert(self.table.tree(*mem) == s1.table.tree(m1));
                            walk::lemma_framed_refl(s1.table.tree(m1));
                        }
                        fwspace::lemma_kept_trans(s0, m0, s1, m1, *self, *mem);
                        assert forall|q: int|
                            tables::in_tree(q) && !in_map(REGIONS as int, q) implies #[trigger] self.entry(
                            *mem,
                            q,
                        ) == s0.entry(m0, q) by {
                            assert(!in_row(k as int, q));
                            if in_map(k as int, q) {
                                let i = choose|i: int| 0 <= i < k && #[trigger] in_row(i, q);
                                assert(in_row(i, q));
                            }
                            assert(s1.entry(m1, q) == s0.entry(m0, q));
                            assert(self.entry(*mem, q) == s1.entry(m1, q));
                        }
                    }
                    return Err(e);
                },
                Ok(()) => {},
            }
            proof {
                fwspace::lemma_kept_trans(s0, m0, s1, m1, *self, *mem);
                let at = choose|at: int|
                    {
                        &&& 0 <= at <= s1.regions@.len()
                        &&& self.regions@ == #[trigger] s1.regions@.insert(at, self.regions@[at])
                        &&& self.regions@[at].va == va
                        &&& self.regions@[at].pages@ == fwspace::popped(f1, n)
                        &&& self.regions@[at].dirty@ == Seq::new(n as nat, |i: int| true)
                        &&& self.regions@[at].pending
                    };
                if at < k {
                    assert(self.regions@[at + 1] == s1.regions@[at]);
                    bootmap::lemma_regions_apart(at, k as int);
                    assert(self.regions@[at].wf());
                    assert(self.regions@[at].end() <= self.regions@[at + 1].va);
                }
                assert(at == k);
                assert forall|i: int| 0 <= i < k + 1 implies (#[trigger] self.regions@[i]).va == bootmap::row(
                    i,
                ).0 && self.regions@[i].pages@.len() * 0x4000 == bootmap::row(i).1 by {
                    if i < k {
                        assert(self.regions@[i] == s1.regions@[i]);
                    }
                }
                assert(frames@ =~= f0.take(f0.len() - pages_upto(k + 1)));
                let added = bootmap::region(k as int);
                s1.lemma_shows_added(m1, f1, *self, *mem, frames@, added);
                if s0.queue_ok() {
                    fwspace_ext::lemma_allocation_queued(
                        s1,
                        m1,
                        f1,
                        *self,
                        *mem,
                        frames@,
                        va,
                        n,
                        added.prot,
                    );
                }
                assert forall|i: int| 0 <= i < k + 1 implies self.shows(
                    *mem,
                    #[trigger] bootmap::region(i),
                ) by {
                    if i < k {
                        assert(s1.shows(m1, bootmap::region(i)));
                        s1.lemma_shows_kept(m1, f1, *self, *mem, frames@, added, bootmap::region(i));
                    }
                }
                assert forall|q: int| tables::in_tree(q) && !in_map(k + 1, q) implies #[trigger] self.entry(
                    *mem,
                    q,
                ) == s0.entry(m0, q) by {
                    assert(!in_row(k as int, q));
                    if in_map(k as int, q) {
                        let i = choose|i: int| 0 <= i < k && #[trigger] in_row(i, q);
                        assert(in_row(i, q));
                    }
                    assert(s1.entry(m1, q) == s0.entry(m0, q));
                }
            }
            k += 1;
        }
        Ok(())
    }
}

proof fn lemma_row_facts(k: int)
    requires
        0 <= k < REGIONS,
    ensures
        bootmap::row(k).0 % 0x4000 == 0,
        bootmap::row(k).1 % 0x4000 == 0,
        0 < bootmap::row(k).1,
        FIRMWARE_START <= bootmap::row(k).0,
        bootmap::row_end(k) <= FIRMWARE_END,
{
    if k + 1 < REGIONS {
        bootmap::lemma_regions_apart(k, k + 1);
    } else {
        bootmap::lemma_regions_apart(k - 1, k);
    }
}

proof fn lemma_page_in_tree(k: int, q: int)
    requires
        0 <= k < REGIONS,
        in_row(k, q),
    ensures
        tables::in_tree(q),
{
    lemma_row_facts(k);
}

/// Once the map is reserved, everything that the plans store has its place.
pub proof fn lemma_covered_has_place(space: FirmwareSpace, va: int, len: int)
    requires
        space.holds_map(REGIONS as int),
        bootmap::covered(va, len),
        0 < len,
    ensures
        exists|i: int|
            #[trigger] fwspace::precedes(space.regions@, i, va) && va + len <= space.regions@[i].end(),
{
    let k = choose|k: int| #[trigger] bootmap::row_covers(k, va, len);
    assert(space.regions@[k].va == bootmap::row(k).0);
    if k + 1 < REGIONS {
        bootmap::lemma_regions_apart(k, k + 1);
        assert(space.regions@[k + 1].va == bootmap::row(k + 1).0);
    }
    assert(fwspace::precedes(space.regions@, k, va));
}

} // verus!
