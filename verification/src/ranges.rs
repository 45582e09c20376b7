//! Lists of ranges that are backed one after the other.
use crate::error::Error;
use crate::prot::Prot;
use crate::space;
use crate::space::AddressSpace;
use crate::tables;
use crate::tables::TableMemory;
use crate::walk;
use vstd::prelude::*;

verus! {

/// The number of pages of the first `n` ranges of a list.
pub open spec fn pages_before(ranges: Seq<(u64, u64)>, n: int) -> int
    decreases n,
{
    if n <= 0 {
        0
    } else {
        pages_before(ranges, n - 1) + ranges[n - 1].1 as int / 0x4000
    }
}

/// Whether a page belongs to a range.
pub open spec fn in_range(range: (u64, u64), page: int) -> bool {
    range.0 as int / 0x4000 <= page < range.0 as int / 0x4000 + range.1 as int / 0x4000
}

/// The entry of a page after the first `n` ranges of a list are backed with frames from the end of a pool.
pub open spec fn backed_entry(
    ranges: Seq<(u64, u64)>,
    n: int,
    frames: Seq<u64>,
    access: Prot,
    page: int,
    before: u64,
) -> u64
    decreases n,
{
    if n <= 0 {
        before
    } else if in_range(ranges[n - 1], page) {
        let k = pages_before(ranges, n - 1) + (page - ranges[n - 1].0 as int / 0x4000);
        frames[frames.len() - 1 - k] | AddressSpace::bits(access)
    } else {
        backed_entry(ranges, n - 1, frames, access, page, before)
    }
}

/// The pages that are owned after the first `n` ranges of a list are backed.
pub open spec fn backed_pages(
    pages: Map<u64, u64>,
    ranges: Seq<(u64, u64)>,
    n: int,
    frames: Seq<u64>,
) -> Map<u64, u64>
    decreases n,
{
    if n <= 0 {
        pages
    } else {
        space::pages_with(
            backed_pages(pages, ranges, n - 1, frames),
            ranges[n - 1].0 as int,
            frames.take(frames.len() - pages_before(ranges, n - 1)),
            ranges[n - 1].1 as int / 0x4000,
        )
    }
}

/// Whether a range is not made of whole pages, or does not end at an address.
pub open spec fn malformed(range: (u64, u64)) -> bool {
    range.1 == 0 || range.0 % 0x4000 != 0 || range.1 % 0x4000 != 0 || range.0 + range.1 > u64::MAX
}

impl AddressSpace {
    /// Why a page cannot be backed when the first `n` ranges of a list are.
    pub open spec fn page_fault(
        self,
        mem: TableMemory,
        frames: Seq<u64>,
        ranges: Seq<(u64, u64)>,
        n: int,
        access: Prot,
        v: int,
    ) -> Option<Error> {
        if backed_pages(self.pages@, ranges, n, frames).contains_key(v as u64) {
            Some(Error::EEXIST)
        } else if v + 0x4000 > 0x400_0000_0000 {
            Some(Error::EINVAL)
        } else if tables::is_valid(
            backed_entry(ranges, n, frames, access, v / 0x4000, self.entry(mem, v / 0x4000)),
        ) {
            Some(Error::EEXIST)
        } else {
            None
        }
    }

    /// The first fault among the pages of a range from page `k` on.
    pub open spec fn first_fault(
        self,
        mem: TableMemory,
        frames: Seq<u64>,
        ranges: Seq<(u64, u64)>,
        n: int,
        access: Prot,
        k: int,
    ) -> Option<Error>
        decreases ranges[n].1 as int / 0x4000 - k,
    {
        let fault = self.page_fault(mem, frames, ranges, n, access, ranges[n].0 + k * 0x4000);
        if k >= ranges[n].1 as int / 0x4000 {
            None
        } else if fault is Some {
            fault
        } else {
            self.first_fault(mem, frames, ranges, n, access, k + 1)
        }
    }

    /// Why a range of a list cannot be backed when those before it are.
    pub open spec fn range_fault(
        self,
        mem: TableMemory,
        frames: Seq<u64>,
        ranges: Seq<(u64, u64)>,
        n: int,
        access: Prot,
    ) -> Option<Error> {
        if malformed(ranges[n]) {
            Some(Error::EINVAL)
        } else {
            self.first_fault(mem, frames, ranges, n, access, 0)
        }
    }

    /// Why a list of ranges cannot be backed from range `n` on, when those before it are: the first range
    /// that is at fault, or for which there are too few frames.
    pub open spec fn list_fault(
        self,
        mem: TableMemory,
        frames: Seq<u64>,
        ranges: Seq<(u64, u64)>,
        n: int,
        access: Prot,
    ) -> Option<Error>
        decreases ranges.len() - n,
    {
        let fault = self.range_fault(mem, frames, ranges, n, access);
        if n >= ranges.len() {
            None
        } else if fault is Some {
            fault
        } else if frames.len() < pages_before(ranges, n + 1) {
            Some(Error::ENOMEM)
        } else {
            self.list_fault(mem, frames, ranges, n + 1, access)
        }
    }

    /// Whether the first `n` ranges of a list are backed, and the next one got `k` frames and no more: all
    /// of their pages are owned and mapped, but for the last one, of which the mapping may be missing.
    pub open spec fn stopped(
        s0: AddressSpace,
        m0: TableMemory,
        f0: Seq<u64>,
        s: AddressSpace,
        m: TableMemory,
        f: Seq<u64>,
        ranges: Seq<(u64, u64)>,
        n: int,
        k: int,
        access: Prot,
    ) -> bool {
        let before = pages_before(ranges, n);
        let first = ranges[n].0 as int / 0x4000;
        &&& 0 <= n < ranges.len()
        &&& 0 <= k <= ranges[n].1 as int / 0x4000
        &&& before + k <= f0.len()
        &&& f == f0.take(f0.len() - before - k)
        &&& s.pages@ == space::pages_with(
            backed_pages(s0.pages@, ranges, n, f0),
            ranges[n].0 as int,
            f0.take(f0.len() - before),
            k,
        )
        &&& forall|q: int|
            tables::in_tree(q) && !(first <= q < first + k) ==> #[trigger] s.entry(m, q)
                == backed_entry(ranges, n, f0, access, q, s0.entry(m0, q))
        &&& forall|q: int|
            tables::in_tree(q) && first <= q < first + k ==> {
                ||| #[trigger] s.entry(m, q) == f0[f0.len() - 1 - (before + (q - first))] | Self::bits(
                    access,
                )
                ||| q == first + k - 1 && s.entry(m, q) == backed_entry(
                    ranges,
                    n,
                    f0,
                    access,
                    q,
                    s0.entry(m0, q),
                )
            }
    }

    /// Whether the first `n` ranges of a list are backed, and all else is as it was.
    pub open spec fn backed(
        s0: AddressSpace,
        m0: TableMemory,
        f0: Seq<u64>,
        s: AddressSpace,
        m: TableMemory,
        f: Seq<u64>,
        ranges: Seq<(u64, u64)>,
        n: int,
        access: Prot,
    ) -> bool {
        &&& 0 <= pages_before(ranges, n) <= f0.len()
        &&& f == f0.take(f0.len() - pages_before(ranges, n))
        &&& m.free@.len() + 2 * pages_before(ranges, n) >= m0.free@.len()
        &&& s.pages@ == backed_pages(s0.pages@, ranges, n, f0)
        &&& forall|q: int|
            tables::in_tree(q) ==> #[trigger] s.entry(m, q) == backed_entry(
                ranges,
                n,
                f0,
                access,
                q,
                s0.entry(m0, q),
            )
        &&& forall|i: int|
            0 <= i < n ==> #[trigger] s0.range_fault(m0, f0, ranges, i, access) is None
    }

    /// What backing ranges keeps: all of the space but the low mappings and the pages it owns.
    pub open spec fn roots_kept(
        s0: AddressSpace,
        m0: TableMemory,
        s: AddressSpace,
        m: TableMemory,
    ) -> bool {
        &&& s.wf(m)
        &&& s.low.same_root(s0.low)
        &&& walk::framed(s0.low.tree(m0), s.low.tree(m))
        &&& walk::extends(s0.low.tree(m0), s.low.tree(m))
        &&& s.high == s0.high
        &&& s.high.tree(m).same_values(s0.high.tree(m0))
        &&& s.compute_scratch == s0.compute_scratch
        &&& s.render_scratch == s0.render_scratch
    }

    /// Backs the ranges of a list below the low root, one after the other, with frames of a pool. Where a
    /// range cannot be backed, those before it stay.
    pub fn alloc_ranges(
        &mut self,
        mem: &mut TableMemory,
        frames: &mut Vec<u64>,
        ranges: &Vec<(u64, u64)>,
        access: Prot,
    ) -> (out: Result<(), Error>)
        requires
            old(self).wf(*old(mem)),
            space::frames_ok(old(frames)@),
        ensures
            Self::roots_kept(*old(self), *old(mem), *final(self), *final(mem)),
            space::frames_ok(final(frames)@),
            match out {
                Ok(_) => {
                    &&& old(self).list_fault(*old(mem), old(frames)@, ranges@, 0, access) is None
                    &&& Self::backed(
                        *old(self),
                        *old(mem),
                        old(frames)@,
                        *final(self),
                        *final(mem),
                        final(frames)@,
                        ranges@,
                        ranges@.len() as int,
                        access,
                    )
                },
                Err(e) => {
                    &&& {
                        ||| old(self).list_fault(*old(mem), old(frames)@, ranges@, 0, access) == Some(e)
                        ||| e == Error::ENOMEM && old(mem).free@.len() < 2 * pages_before(
                            ranges@,
                            ranges@.len() as int,
                        )
                    }
                    &&& exists|n: int, k: int| #[trigger]
                        Self::stopped(
                            *old(self),
                            *old(mem),
                            old(frames)@,
                            *final(self),
                            *final(mem),
                            final(frames)@,
                            ranges@,
                            n,
                            k,
                            access,
                        )
                    &&& forall|q: int|
                        tables::in_tree(q) && (forall|i: int|
                            0 <= i < ranges@.len() ==> !in_range(#[trigger] ranges@[i], q))
                            ==> #[trigger] final(self).entry(*final(mem), q) == old(self).entry(
                            *old(mem),
                            q,
                        )
                },
            },
    {
        let ghost s0 = *self;
        let ghost m0 = *mem;
        let ghost f0 = frames@;
        proof {
            walk::lemma_framed_refl(s0.low.tree(m0));
            assert(f0.take(f0.len() as int) =~= f0);
        }
        let mut n: usize = 0;
        while n < ranges.len()
            invariant
                n <= ranges@.len(),
                s0 == *old(self),
                m0 == *old(mem),
                f0 == old(frames)@,
                space::frames_ok(f0),
                space::frames_ok(frames@),
                Self::roots_kept(s0, m0, *self, *mem),
                Self::backed(s0, m0, f0, *self, *mem, frames@, ranges@, n as int, access),
                s0.list_fault(m0, f0, ranges@, 0, access) == s0.list_fault(
                    m0,
                    f0,
                    ranges@,
                    n as int,
                    access,
                ),
            decreases ranges@.len() - n,
        {
            let ghost s1 = *self;
            let ghost m1 = *mem;
            let ghost f1 = frames@;
            let (va, size): (u64, u64) = ranges[n];
            let done = self.alloc_low(mem, frames, va, size, access);
            proof {
                let count = size as int / 0x4000;
                walk::lemma_framed_trans(s0.low.tree(m0), s1.low.tree(m1), self.low.tree(*mem));
                walk::lemma_extends_trans(s0.low.tree(m0), s1.low.tree(m1), self.low.tree(*mem));
                lemma_values_follow(s0, m0, s1, m1, *self, *mem);
                assert(pages_before(ranges@, n + 1) == pages_before(ranges@, n as int) + count);
                if !malformed(ranges@[n as int]) {
                    lemma_first_fault(s0, m0, f0, s1, m1, f1, ranges@, n as int, access, 0);
                }
                if done is Err {
                    lemma_rest_kept(s0, m0, f0, s1, m1, f1, *self, *mem, ranges@, n as int, access);
                    assert(s0.range_fault(m0, f0, ranges@, n as int, access) is Some ==> s0.range_fault(
                        m0,
                        f0,
                        ranges@,
                        n as int,
                        access,
                    ) == Some(done->Err_0));
                    lemma_more_pages(ranges@, n + 1, ranges@.len() as int);
                    lemma_stopped(
                        s0,
                        m0,
                        f0,
                        s1,
                        m1,
                        f1,
                        *self,
                        *mem,
                        frames@,
                        ranges@,
                        n as int,
                        access,
                        done,
                    );
                } else {
                    lemma_next_range(s0, m0, f0, s1, m1, f1, *self, *mem, frames@, ranges@, n as int, access);
                }
            }
            match done {
                Err(e) => {
                    return Err(e);
                },
                Ok(()) => {},
            }
            n += 1;
        }
        Ok(())
    }
}

/// Two steps that keep the high mappings keep them together.
proof fn lemma_values_follow(
    s0: AddressSpace,
    m0: TableMemory,
    s1: AddressSpace,
    m1: TableMemory,
    s: AddressSpace,
    m: TableMemory,
)
    requires
        s1.high.tree(m1).same_values(s0.high.tree(m0)),
        s.high.tree(m).same_values(s1.high.tree(m1)),
    ensures
        s.high.tree(m).same_values(s0.high.tree(m0)),
{
    assert forall|q: int| tables::in_tree(q) implies #[trigger] s.high.tree(m).value(q) == s0.high.tree(
        m0,
    ).value(q) by {
        assert(s1.high.tree(m1).value(q) == s0.high.tree(m0).value(q));
    }
}

/// The faults of a range are the conflicts it meets in the space as it is then.
proof fn lemma_first_fault(
    s0: AddressSpace,
    m0: TableMemory,
    f0: Seq<u64>,
    s1: AddressSpace,
    m1: TableMemory,
    f1: Seq<u64>,
    ranges: Seq<(u64, u64)>,
    n: int,
    access: Prot,
    k: int,
)
    requires
        AddressSpace::backed(s0, m0, f0, s1, m1, f1, ranges, n, access),
        !malformed(ranges[n]),
        0 <= k,
    ensures
        s0.first_fault(m0, f0, ranges, n, access, k) == s1.first_conflict(
            m1,
            ranges[n].0 as int,
            k,
            ranges[n].1 as int / 0x4000,
        ),
    decreases ranges[n].1 as int / 0x4000 - k,
{
    if k < ranges[n].1 as int / 0x4000 {
        let v = ranges[n].0 + k * 0x4000;
        if v + 0x4000 <= 0x400_0000_0000 {
            assert(tables::in_tree(v / 0x4000));
            assert(s1.entry(m1, v / 0x4000) == backed_entry(
                ranges,
                n,
                f0,
                access,
                v / 0x4000,
                s0.entry(m0, v / 0x4000),
            ));
        }
        lemma_first_fault(s0, m0, f0, s1, m1, f1, ranges, n, access, k + 1);
    }
}

/// Where one more range is backed, one more range of the list is.
proof fn lemma_next_range(
    s0: AddressSpace,
    m0: TableMemory,
    f0: Seq<u64>,
    s1: AddressSpace,
    m1: TableMemory,
    f1: Seq<u64>,
    s: AddressSpace,
    m: TableMemory,
    f: Seq<u64>,
    ranges: Seq<(u64, u64)>,
    n: int,
    access: Prot,
)
    requires
        0 <= n < ranges.len(),
        space::frames_ok(f0),
        AddressSpace::backed(s0, m0, f0, s1, m1, f1, ranges, n, access),
        s1.alloc_done(m1, f1, s, m, f, ranges[n].0, ranges[n].1, access, Ok(())),
        !malformed(ranges[n]) ==> s0.first_fault(m0, f0, ranges, n, access, 0) == s1.first_conflict(
            m1,
            ranges[n].0 as int,
            0,
            ranges[n].1 as int / 0x4000,
        ),
    ensures
        AddressSpace::backed(s0, m0, f0, s, m, f, ranges, n + 1, access),
        space::frames_ok(f),
{
    let before = pages_before(ranges, n);
    let count = ranges[n].1 as int / 0x4000;
    assert(pages_before(ranges, n + 1) == before + count);
    assert(f =~= f0.take(f0.len() - (before + count)));
    assert forall|q: int| tables::in_tree(q) implies #[trigger] s.entry(m, q) == backed_entry(
        ranges,
        n + 1,
        f0,
        access,
        q,
        s0.entry(m0, q),
    ) by {
        let first = ranges[n].0 as int / 0x4000;
        assert(s1.entry(m1, q) == backed_entry(ranges, n, f0, access, q, s0.entry(m0, q)));
        if in_range(ranges[n], q) {
            assert(f1[f1.len() - 1 - (q - first)] == f0[f0.len() - 1 - (before + (q - first))]);
        }
    }
    assert forall|i: int| 0 <= i < n + 1 implies #[trigger] s0.range_fault(
        m0,
        f0,
        ranges,
        i,
        access,
    ) is None by {}
}

/// A longer part of a list has no fewer pages.
proof fn lemma_more_pages(ranges: Seq<(u64, u64)>, a: int, b: int)
    requires
        a <= b,
    ensures
        pages_before(ranges, a) <= pages_before(ranges, b),
    decreases b - a,
{
    if a < b {
        lemma_more_pages(ranges, a, b - 1);
    }
}

/// Where a range is not backed, the list stopped there.
proof fn lemma_stopped(
    s0: AddressSpace,
    m0: TableMemory,
    f0: Seq<u64>,
    s1: AddressSpace,
    m1: TableMemory,
    f1: Seq<u64>,
    s: AddressSpace,
    m: TableMemory,
    f: Seq<u64>,
    ranges: Seq<(u64, u64)>,
    n: int,
    access: Prot,
    out: Result<(), Error>,
)
    requires
        0 <= n < ranges.len(),
        AddressSpace::backed(s0, m0, f0, s1, m1, f1, ranges, n, access),
        s1.alloc_done(m1, f1, s, m, f, ranges[n].0, ranges[n].1, access, out),
        out is Err,
        forall|q: int|
            tables::in_tree(q) && !in_range(ranges[n], q) ==> #[trigger] s.entry(m, q) == s1.entry(m1, q),
    ensures
        exists|k: int|
            #[trigger] AddressSpace::stopped(s0, m0, f0, s, m, f, ranges, n, k, access),
{
    let va = ranges[n].0 as int;
    let count = ranges[n].1 as int / 0x4000;
    let before = pages_before(ranges, n);
    let first = va / 0x4000;
    let k: int = if malformed(ranges[n]) || s1.first_conflict(m1, va, 0, count) is Some {
        0
    } else {
        choose|k: int|
            0 <= k <= count && #[trigger] s1.partly_backed(m1, f1, s, m, f, va, access, k)
    };
    assert(f =~= f0.take(f0.len() - before - k)) by {
        if k == 0 {
            assert(f =~= f1);
        }
    }
    assert forall|q: int| tables::in_tree(q) && !(first <= q < first + k) implies #[trigger] s.entry(m, q)
        == backed_entry(ranges, n, f0, access, q, s0.entry(m0, q)) by {
        assert(s1.entry(m1, q) == backed_entry(ranges, n, f0, access, q, s0.entry(m0, q)));
        assert(s.entry(m, q) == s1.entry(m1, q));
    }
    assert forall|q: int| tables::in_tree(q) && first <= q < first + k implies {
        ||| #[trigger] s.entry(m, q) == f0[f0.len() - 1 - (before + (q - first))] | AddressSpace::bits(
            access,
        )
        ||| q == first + k - 1 && s.entry(m, q) == backed_entry(
            ranges,
            n,
            f0,
            access,
            q,
            s0.entry(m0, q),
        )
    } by {
        assert(s1.entry(m1, q) == backed_entry(ranges, n, f0, access, q, s0.entry(m0, q)));
        assert(f1[f1.len() - 1 - (q - first)] == f0[f0.len() - 1 - (before + (q - first))]);
    }
    assert(AddressSpace::stopped(s0, m0, f0, s, m, f, ranges, n, k, access));
}

/// Where a range is not backed, pages outside the list are as they were.
proof fn lemma_rest_kept(
    s0: AddressSpace,
    m0: TableMemory,
    f0: Seq<u64>,
    s1: AddressSpace,
    m1: TableMemory,
    f1: Seq<u64>,
    s: AddressSpace,
    m: TableMemory,
    ranges: Seq<(u64, u64)>,
    n: int,
    access: Prot,
)
    requires
        0 <= n < ranges.len(),
        AddressSpace::backed(s0, m0, f0, s1, m1, f1, ranges, n, access),
        forall|q: int|
            tables::in_tree(q) && !in_range(ranges[n], q) ==> #[trigger] s.entry(m, q) == s1.entry(m1, q),
    ensures
        forall|q: int|
            tables::in_tree(q) && (forall|i: int|
                0 <= i < ranges.len() ==> !in_range(#[trigger] ranges[i], q)) ==> #[trigger] s.entry(m, q)
                == s0.entry(m0, q),
{
    assert forall|q: int|
        tables::in_tree(q) && (forall|i: int|
            0 <= i < ranges.len() ==> !in_range(#[trigger] ranges[i], q)) implies #[trigger] s.entry(m, q)
        == s0.entry(m0, q) by {
        assert(!in_range(ranges[n], q));
        assert(s1.entry(m1, q) == backed_entry(ranges, n, f0, access, q, s0.entry(m0, q)));
        lemma_outside(ranges, n, f0, access, q, s0.entry(m0, q));
    }
}

/// A page outside the first ranges of a list has the entry it had.
pub proof fn lemma_outside(
    ranges: Seq<(u64, u64)>,
    n: int,
    frames: Seq<u64>,
    access: Prot,
    page: int,
    before: u64,
)
    requires
        n <= ranges.len(),
        forall|i: int| 0 <= i < n ==> !in_range(#[trigger] ranges[i], page),
    ensures
        backed_entry(ranges, n, frames, access, page, before) == before,
    decreases n,
{
    if n > 0 {
        assert(!in_range(ranges[n - 1], page));
        lemma_outside(ranges, n - 1, frames, access, page, before);
    }
}

} // verus!
