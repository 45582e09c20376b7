//! The aperture in which the firmware writes timestamps of clients.
use crate::error::Error;
use vstd::prelude::*;

verus! {

/// The ranges of the aperture that are in use, in the order of their addresses.
pub struct Timestamps {
    pub ranges: Vec<(u64, u64)>,
}

/// Whether ranges are not empty, in order and apart.
pub open spec fn in_order(ranges: Seq<(u64, u64)>) -> bool {
    &&& forall|i: int| 0 <= i < ranges.len() ==> (#[trigger] ranges[i]).0 < ranges[i].1
    &&& forall|i: int, j: int|
        0 <= i < j < ranges.len() ==> (#[trigger] ranges[i]).1 <= (#[trigger] ranges[j]).0
}

/// Whether a range meets none of some ranges.
pub open spec fn is_free(ranges: Seq<(u64, u64)>, start: int, size: int) -> bool {
    forall|i: int|
        0 <= i < ranges.len() ==> start + size <= (#[trigger] ranges[i]).0 || ranges[i].1 <= start
}

/// Whether a range of a given size fits at an address of the aperture.
pub open spec fn fits(ranges: Seq<(u64, u64)>, base: int, limit: int, start: int, size: int) -> bool {
    base <= start && start + size <= limit && is_free(ranges, start, size)
}

impl Timestamps {
    /// What holds of the ranges.
    pub open spec fn wf(self) -> bool {
        in_order(self.ranges@)
    }

    /// No range is in use.
    pub fn new() -> (out: Self)
        ensures
            out.wf(),
            out.ranges@.len() == 0,
    {
        Timestamps { ranges: Vec::new() }
    }

    /// Takes the lowest range of a size in the aperture.
    pub fn reserve(&mut self, size: u64, base: u64, limit: u64) -> (out: Result<u64, Error>)
        requires
            old(self).wf(),
        ensures
            final(self).wf(),
            match out {
                Ok(start) => {
                    &&& size > 0 && size % 0x4000 == 0
                    &&& fits(
                        old(self).ranges@,
                        base as int,
                        limit as int,
                        start as int,
                        size as int,
                    )
                    &&& forall|other: int|
                        base <= other < start ==> !#[trigger] is_free(
                            old(self).ranges@,
                            other,
                            size as int,
                        )
                    &&& exists|at: int|
                        0 <= at <= old(self).ranges@.len() && final(self).ranges@
                            == #[trigger] old(self).ranges@.insert(at, (start, (start + size) as u64))
                },
                Err(e) => {
                    &&& *final(self) == *old(self)
                    &&& if size == 0 || size % 0x4000 != 0 {
                        e == Error::EINVAL
                    } else {
                        e == Error::ENOSPC && forall|other: int|
                            base <= other && other + size <= limit ==> !#[trigger] is_free(
                                old(self).ranges@,
                                other,
                                size as int,
                            )
                    }
                },
            },
    {
        if size == 0 || size % 0x4000 != 0 {
            return Err(Error::EINVAL);
        }
        let ghost all = self.ranges@;
        let mut start: u64 = base;
        let mut i: usize = 0;
        // The first range that the new one comes before.
        while i < self.ranges.len() && (start > u64::MAX - size || start + size > self.ranges[i].0)
            invariant
                size > 0,
                i <= all.len(),
                all == self.ranges@,
                in_order(all),
                base <= start,
                forall|j: int| 0 <= j < i ==> (#[trigger] all[j]).1 <= start,
                forall|other: int| base <= other < start ==> !#[trigger] is_free(all, other, size as int),
            decreases all.len() - i,
        {
            if start < self.ranges[i].1 {
                proof {
                    let next = all[i as int].1;
                    assert forall|other: int| base <= other < next implies !#[trigger] is_free(
                        all,
                        other,
                        size as int,
                    ) by {
                        if other >= start {
                            assert(other + size > all[i as int].0);
                        }
                    }
                }
                start = self.ranges[i].1;
            }
            i += 1;
        }
        if start > u64::MAX - size || start + size > limit {
            proof {
                assert forall|other: int| base <= other && other + size <= limit implies !#[trigger] is_free(
                    all,
                    other,
                    size as int,
                ) by {}
            }
            return Err(Error::ENOSPC);
        }
        proof {
            assert forall|j: int| 0 <= j < all.len() implies start + size <= (#[trigger] all[j]).0
                || all[j].1 <= start by {
                if j > i {
                    assert(all[i as int].1 <= all[j].0);
                }
            }
            assert(is_free(all, start as int, size as int));
        }
        self.ranges.insert(i, (start, start + size));
        proof {
            let next = self.ranges@;
            assert(next == all.insert(i as int, (start, (start + size) as u64)));
            assert forall|a: int| 0 <= a < next.len() implies (#[trigger] next[a]).0 < next[a].1 by {
                if a < i {
                    assert(next[a] == all[a]);
                } else if a > i {
                    assert(next[a] == all[a - 1]);
                }
            }
            assert forall|a: int, b: int| 0 <= a < b < next.len() implies (#[trigger] next[a]).1 <= (
            #[trigger] next[b]).0 by {
                if a < i {
                    assert(next[a] == all[a]);
                    if b > i {
                        assert(next[b] == all[b - 1]);
                    } else if b < i {
                        assert(next[b] == all[b]);
                    }
                } else if a > i {
                    assert(next[a] == all[a - 1]);
                    assert(next[b] == all[b - 1]);
                } else {
                    assert(next[b] == all[b - 1]);
                    if b - 1 > i {
                        assert(all[i as int].1 <= all[b - 1].0);
                    }
                }
            }
        }
        Ok(start)
    }

    /// Gives a range back.
    pub fn release(&mut self, start: u64, end: u64)
        requires
            old(self).wf(),
        ensures
            final(self).wf(),
            if old(self).ranges@.contains((start, end)) {
                exists|i: int|
                    0 <= i < old(self).ranges@.len() && old(self).ranges@[i] == (start, end)
                        && final(self).ranges@ == #[trigger] old(self).ranges@.remove(i)
            } else {
                *final(self) == *old(self)
            },
    {
        let ghost all = self.ranges@;
        let mut i: usize = 0;
        while i < self.ranges.len()
            invariant
                i <= all.len(),
                all == self.ranges@,
                *self == *old(self),
                in_order(all),
                forall|j: int| 0 <= j < i ==> #[trigger] all[j] != (start, end),
            decreases all.len() - i,
        {
            if self.ranges[i].0 == start && self.ranges[i].1 == end {
                self.ranges.remove(i);
                proof {
                    let next = self.ranges@;
                    assert(next == all.remove(i as int));
                    assert(all[i as int] == (start, end));
                    assert forall|a: int, b: int| 0 <= a < b < next.len() implies (
                    #[trigger] next[a]).1 <= (#[trigger] next[b]).0 by {
                        let x = if a < i {
                            a
                        } else {
                            a + 1
                        };
                        let y = if b < i {
                            b
                        } else {
                            b + 1
                        };
                        assert(next[a] == all[x] && next[b] == all[y]);
                    }
                }
                return ;
            }
            i += 1;
        }
    }
}

/// Giving back a range that was just taken leaves the ranges as they were.
pub proof fn lemma_reserve_undone(ranges: Seq<(u64, u64)>, at: int, range: (u64, u64))
    requires
        in_order(ranges),
        0 <= at <= ranges.len(),
        range.0 < range.1,
        is_free(ranges, range.0 as int, range.1 - range.0),
    ensures
        ranges.insert(at, range).remove(at) == ranges,
        forall|i: int|
            0 <= i <= ranges.len() && i != at ==> #[trigger] ranges.insert(at, range)[i] != range,
{
    let next = ranges.insert(at, range);
    assert(next.remove(at) =~= ranges);
    assert forall|i: int| 0 <= i <= ranges.len() && i != at implies #[trigger] next[i] != range by {
        let o = if i < at {
            i
        } else {
            i - 1
        };
        assert(next[i] == ranges[o]);
        assert(ranges[o].0 < ranges[o].1);
    }
}

} // verus!
