//! Mappings of a client, and how the pages behind them are laid out.
use crate::error::Error;
use vstd::prelude::*;

verus! {

/// A range of a client's address space that a buffer is bound to.
#[derive(Clone, Copy, Debug, PartialEq, Eq, Structural)]
pub struct Mapping {
    pub start: u64,
    pub end: u64,
    pub permissions: u32,
    /// The offset in the buffer of the first page.
    pub offset: u64,
    /// Whether one page of the buffer is repeated.
    pub single: bool,
    /// The buffer, whose pages stay pinned as long as the mapping exists.
    pub object: u64,
}

/// A physically contiguous part of a buffer.
#[derive(Clone, Copy, Debug, PartialEq, Eq, Structural)]
pub struct Segment {
    pub address: u64,
    pub length: u64,
}

/// A part of a mapping that is physically contiguous, or repeats one page.
#[derive(Clone, Copy, Debug, PartialEq, Eq, Structural)]
pub struct Extent {
    pub start: u64,
    pub end: u64,
    pub physical: u64,
}

impl Mapping {
    /// What holds of every mapping.
    pub open spec fn wf(self) -> bool {
        self.start < self.end && self.offset + (self.end - self.start) <= u64::MAX
    }

    /// Whether an address is mapped with some permissions.
    pub open spec fn allows(self, address: int, permissions: u32) -> bool {
        self.start <= address < self.end && self.permissions & permissions == permissions
    }

    /// Whether the mapping meets a range.
    pub open spec fn meets(self, start: int, end: int) -> bool {
        start < self.end && self.start < end
    }
}

/// Whether an address is mapped with some permissions.
pub open spec fn covered(mappings: Seq<Mapping>, address: int, permissions: u32) -> bool {
    exists|i: int| 0 <= i < mappings.len() && (#[trigger] mappings[i]).allows(address, permissions)
}

/// Whether a range is mapped with some permissions, every address of it.
pub open spec fn range_covered(mappings: Seq<Mapping>, start: int, size: int, permissions: u32) -> bool {
    &&& size > 0
    &&& start + size <= u64::MAX
    &&& forall|x: int| start <= x < start + size ==> #[trigger] covered(mappings, x, permissions)
}

/// Whether a range meets a mapping.
pub open spec fn meets_any(mappings: Seq<Mapping>, start: int, end: int) -> bool {
    exists|i: int| 0 <= i < mappings.len() && (#[trigger] mappings[i]).meets(start, end)
}

/// Checks that a range is mapped with some permissions. Several mappings may cover it together.
pub fn cover(mappings: &Vec<Mapping>, start: u64, size: u64, permissions: u32) -> (out: Result<
    (),
    Error,
>)
    ensures
        out == if range_covered(mappings@, start as int, size as int, permissions) {
            Ok::<(), Error>(())
        } else {
            Err(Error::EINVAL)
        },
{
    let end: u64 = match start.checked_add(size) {
        None => {
            return Err(Error::EINVAL);
        },
        Some(end) => end,
    };
    if size == 0 {
        return Err(Error::EINVAL);
    }
    let mut cursor: u64 = start;
    while cursor < end
        invariant
            start <= cursor <= end,
            end == start + size,
            size > 0,
            forall|x: int| start <= x < cursor ==> #[trigger] covered(mappings@, x, permissions),
        decreases end - cursor,
    {
        let mut i: usize = 0;
        while i < mappings.len() && !(mappings[i].start <= cursor && cursor < mappings[i].end
            && mappings[i].permissions & permissions == permissions)
            invariant
                i <= mappings@.len(),
                forall|j: int|
                    0 <= j < i ==> !(#[trigger] mappings@[j]).allows(cursor as int, permissions),
            decreases mappings@.len() - i,
        {
            i += 1;
        }
        if i == mappings.len() {
            assert(!covered(mappings@, cursor as int, permissions));
            return Err(Error::EINVAL);
        }
        let next: u64 = mappings[i].end;
        proof {
            assert forall|x: int| start <= x < next implies #[trigger] covered(
                mappings@,
                x,
                permissions,
            ) by {
                if x >= cursor {
                    assert(mappings@[i as int].allows(x, permissions));
                }
            }
        }
        if next < end {
            cursor = next;
        } else {
            cursor = end;
        }
    }
    Ok(())
}

/// Whether a range meets a mapping.
pub fn meets(mappings: &Vec<Mapping>, start: u64, end: u64) -> (out: bool)
    ensures
        out == meets_any(mappings@, start as int, end as int),
{
    let mut i: usize = 0;
    while i < mappings.len()
        invariant
            i <= mappings@.len(),
            forall|j: int| 0 <= j < i ==> !(#[trigger] mappings@[j]).meets(start as int, end as int),
        decreases mappings@.len() - i,
    {
        if start < mappings[i].end && mappings[i].start < end {
            assert(mappings@[i as int].meets(start as int, end as int));
            return true;
        }
        i += 1;
    }
    false
}

/// The physical address of a byte of a buffer whose segments from `i` on follow.
pub open spec fn byte_address(segments: Seq<Segment>, i: int, offset: int) -> Option<int>
    decreases segments.len() - i,
{
    if i < 0 || i >= segments.len() {
        None
    } else if offset < segments[i].length {
        Some(segments[i].address + offset)
    } else {
        byte_address(segments, i + 1, offset - segments[i].length)
    }
}

/// The extents of a mapping, from some address of it and some segment of its buffer on; none where the
/// buffer is too short or its pages are not aligned.
pub open spec fn extents_of(
    segments: Seq<Segment>,
    i: int,
    offset: int,
    va: int,
    end: int,
    single: bool,
) -> Option<Seq<Extent>>
    decreases segments.len() - i,
{
    if i < 0 || i >= segments.len() {
        None
    } else if offset >= segments[i].length {
        extents_of(segments, i + 1, offset - segments[i].length, va, end, single)
    } else {
        let physical = segments[i].address + offset;
        let left = segments[i].length - offset;
        let length = if left < end - va {
            left
        } else {
            end - va
        };
        let stop = if single {
            end
        } else {
            va + length
        };
        let extent = Extent { start: va as u64, end: stop as u64, physical: physical as u64 };
        if physical > u64::MAX || va % 0x4000 != 0 || physical % 0x4000 != 0 || length % 0x4000 != 0 {
            None
        } else if stop == end {
            Some(seq![extent])
        } else {
            match extents_of(segments, i + 1, 0, stop, end, single) {
                None => None,
                Some(rest) => Some(seq![extent] + rest),
            }
        }
    }
}

/// The extents of a mapping of a buffer from an offset on.
pub fn extents(segments: &Vec<Segment>, offset: u64, start: u64, end: u64, single: bool) -> (out: Result<
    Vec<Extent>,
    Error,
>)
    requires
        start < end,
    ensures
        match out {
            Ok(extents) => extents_of(
                segments@,
                0,
                offset as int,
                start as int,
                end as int,
                single,
            ) == Some(extents@),
            Err(e) => e == Error::EINVAL && extents_of(
                segments@,
                0,
                offset as int,
                start as int,
                end as int,
                single,
            ) is None,
        },
{
    let mut out: Vec<Extent> = Vec::new();
    let mut skip: u64 = offset;
    let mut va: u64 = start;
    let mut i: usize = 0;
    let ghost whole = extents_of(segments@, 0, offset as int, start as int, end as int, single);
    assert(Seq::<Extent>::empty() + whole->0 =~= whole->0);
    while i < segments.len()
        invariant
            i <= segments@.len(),
            va < end,
            whole == extents_of(segments@, 0, offset as int, start as int, end as int, single),
            whole == match extents_of(segments@, i as int, skip as int, va as int, end as int, single) {
                None => None,
                Some(rest) => Some(out@ + rest),
            },
        decreases segments@.len() - i,
    {
        let segment: Segment = segments[i];
        let ghost here = extents_of(segments@, i as int, skip as int, va as int, end as int, single);
        if skip >= segment.length {
            skip = skip - segment.length;
            i += 1;
            continue ;
        }
        let physical: u64 = match segment.address.checked_add(skip) {
            None => {
                return Err(Error::EINVAL);
            },
            Some(physical) => physical,
        };
        let left: u64 = segment.length - skip;
        let length: u64 = if left < end - va {
            left
        } else {
            end - va
        };
        skip = 0;
        if va % 0x4000 != 0 || physical % 0x4000 != 0 || length % 0x4000 != 0 {
            return Err(Error::EINVAL);
        }
        let stop: u64 = if single {
            end
        } else {
            va + length
        };
        let ghost before = out@;
        let extent = Extent { start: va, end: stop, physical };
        out.push(extent);
        if stop == end {
            proof {
                assert(here == Some(seq![extent]));
                assert(out@ =~= before + seq![extent]);
            }
            return Ok(out);
        }
        proof {
            let next = extents_of(segments@, i + 1, 0, stop as int, end as int, single);
            if next is Some {
                assert(here == Some(seq![extent] + next->0));
                assert(out@ + next->0 =~= before + (seq![extent] + next->0));
            }
        }
        va = stop;
        i += 1;
    }
    Err(Error::EINVAL)
}

/// What a mapping shows: the extents follow each other over the whole range, and every byte of it is
/// the byte of the buffer at its distance from the start.
pub proof fn lemma_extents_show(
    segments: Seq<Segment>,
    i: int,
    offset: int,
    va: int,
    end: int,
    x: int,
)
    requires
        0 <= offset,
        0 <= va <= x < end <= u64::MAX,
        0 <= i,
        extents_of(segments, i, offset, va, end, false) is Some,
    ensures
        shown(extents_of(segments, i, offset, va, end, false)->0, x) == byte_address(
            segments,
            i,
            offset + (x - va),
        ),
    decreases segments.len() - i,
{
    if i < segments.len() {
        let length = segments[i].length;
        if offset >= length {
            lemma_extents_show(segments, i + 1, offset - length, va, end, x);
        } else {
            let left = length - offset;
            let size = if left < end - va {
                left
            } else {
                end - va
            };
            let stop = va + size;
            let all = extents_of(segments, i, offset, va, end, false)->0;
            if x < stop {
                reveal_with_fuel(shown, 2);
                assert(all[0].start <= x < all[0].end);
            } else {
                let rest = extents_of(segments, i + 1, 0, stop, end, false);
                assert(all =~= seq![all[0]] + rest->0);
                assert(all.drop_first() =~= rest->0);
                lemma_extents_show(segments, i + 1, 0, stop, end, x);
                assert(offset + (x - va) >= length);
            }
        }
    }
}

/// The physical address that extents show at an address.
pub open spec fn shown(extents: Seq<Extent>, x: int) -> Option<int>
    decreases extents.len(),
{
    if extents.len() == 0 {
        None
    } else if extents[0].start <= x < extents[0].end {
        Some(extents[0].physical + (x - extents[0].start))
    } else {
        shown(extents.drop_first(), x)
    }
}

/// What is left of a mapping outside a range.
pub open spec fn parts_of(m: Mapping, start: int, end: int) -> Seq<Mapping> {
    let low_end = if (m.end as int) < start {
        m.end as int
    } else {
        start
    };
    let high_start = if (m.start as int) > end {
        m.start as int
    } else {
        end
    };
    let low = Mapping { end: low_end as u64, ..m };
    let high = Mapping {
        start: high_start as u64,
        offset: (m.offset + if m.single {
            0
        } else {
            high_start - m.start
        }) as u64,
        ..m
    };
    if m.start < low_end && high_start < m.end {
        seq![low, high]
    } else if m.start < low_end {
        seq![low]
    } else if high_start < m.end {
        seq![high]
    } else {
        seq![]
    }
}

/// What is left of the first `n` mappings outside a range.
pub open spec fn retained_of(mappings: Seq<Mapping>, start: int, end: int, n: int) -> Seq<Mapping>
    decreases n,
{
    if n <= 0 {
        seq![]
    } else {
        retained_of(mappings, start, end, n - 1) + parts_of(mappings[n - 1], start, end)
    }
}

/// The buffers of the first `n` mappings that meet a range.
pub open spec fn retired_of(mappings: Seq<Mapping>, start: int, end: int, n: int) -> Seq<u64>
    decreases n,
{
    if n <= 0 {
        seq![]
    } else if mappings[n - 1].meets(start, end) {
        retired_of(mappings, start, end, n - 1).push(mappings[n - 1].object)
    } else {
        retired_of(mappings, start, end, n - 1)
    }
}

/// Splits mappings around a range: what is left of them, and the buffers that lose pages.
pub fn split(mappings: &Vec<Mapping>, start: u64, end: u64) -> (out: (Vec<Mapping>, Vec<u64>))
    requires
        start <= end,
        forall|i: int| 0 <= i < mappings@.len() ==> (#[trigger] mappings@[i]).wf(),
    ensures
        out.0@ == retained_of(mappings@, start as int, end as int, mappings@.len() as int),
        out.1@ == retired_of(mappings@, start as int, end as int, mappings@.len() as int),
{
    let mut retained: Vec<Mapping> = Vec::new();
    let mut retired: Vec<u64> = Vec::new();
    let mut i: usize = 0;
    while i < mappings.len()
        invariant
            start <= end,
            i <= mappings@.len(),
            forall|i: int| 0 <= i < mappings@.len() ==> (#[trigger] mappings@[i]).wf(),
            retained@ == retained_of(mappings@, start as int, end as int, i as int),
            retired@ == retired_of(mappings@, start as int, end as int, i as int),
        decreases mappings@.len() - i,
    {
        let m: Mapping = mappings[i];
        assert(mappings@[i as int].wf());
        let ghost before = retained@;
        let low_end: u64 = if m.end < start {
            m.end
        } else {
            start
        };
        if m.start < low_end {
            retained.push(Mapping { end: low_end, ..m });
        }
        let high_start: u64 = if m.start > end {
            m.start
        } else {
            end
        };
        if high_start < m.end {
            let moved: u64 = if m.single {
                0
            } else {
                high_start - m.start
            };
            retained.push(Mapping { start: high_start, offset: m.offset + moved, ..m });
        }
        assert(retained@ =~= before + parts_of(m, start as int, end as int));
        if start < m.end && m.start < end {
            retired.push(m.object);
        }
        i += 1;
    }
    (retained, retired)
}

/// Unbinding a range takes away what it covers, and nothing else.
pub proof fn lemma_split_covers(
    mappings: Seq<Mapping>,
    start: int,
    end: int,
    n: int,
    x: int,
    permissions: u32,
)
    requires
        0 <= start <= end <= u64::MAX,
        0 <= n <= mappings.len(),
    ensures
        covered(retained_of(mappings, start, end, n), x, permissions) == (covered(
            mappings.take(n),
            x,
            permissions,
        ) && !(start <= x < end)),
    decreases n,
{
    let all = retained_of(mappings, start, end, n);
    if n > 0 {
        lemma_split_covers(mappings, start, end, n - 1, x, permissions);
        let before = retained_of(mappings, start, end, n - 1);
        let m = mappings[n - 1];
        let parts = parts_of(m, start, end);
        assert(covered(parts, x, permissions) == (m.allows(x, permissions) && !(start <= x < end))) by {
            if m.allows(x, permissions) && !(start <= x < end) {
                if x < start {
                    assert(parts[0].allows(x, permissions));
                } else {
                    assert(parts[parts.len() - 1].allows(x, permissions));
                }
            }
        }
        assert(covered(all, x, permissions) == (covered(before, x, permissions) || covered(
            parts,
            x,
            permissions,
        ))) by {
            if covered(before, x, permissions) {
                let i = choose|i: int|
                    0 <= i < before.len() && (#[trigger] before[i]).allows(x, permissions);
                assert(all[i].allows(x, permissions));
            }
            if covered(parts, x, permissions) {
                let i = choose|i: int|
                    0 <= i < parts.len() && (#[trigger] parts[i]).allows(x, permissions);
                assert(all[before.len() + i].allows(x, permissions));
            }
            if covered(all, x, permissions) {
                let i = choose|i: int|
                    0 <= i < all.len() && (#[trigger] all[i]).allows(x, permissions);
                if i < before.len() {
                    assert(before[i].allows(x, permissions));
                } else {
                    assert(parts[i - before.len()].allows(x, permissions));
                }
            }
        }
        let now = mappings.take(n);
        let then = mappings.take(n - 1);
        assert(covered(now, x, permissions) == (covered(then, x, permissions) || m.allows(
            x,
            permissions,
        ))) by {
            if covered(then, x, permissions) {
                let i = choose|i: int|
                    0 <= i < then.len() && (#[trigger] then[i]).allows(x, permissions);
                assert(now[i].allows(x, permissions));
            }
            if m.allows(x, permissions) {
                assert(now[n - 1].allows(x, permissions));
            }
            if covered(now, x, permissions) {
                let i = choose|i: int|
                    0 <= i < now.len() && (#[trigger] now[i]).allows(x, permissions);
                if i < n - 1 {
                    assert(then[i].allows(x, permissions));
                }
            }
        }
    } else {
        assert(!covered(mappings.take(0), x, permissions));
        assert(!covered(all, x, permissions));
    }
}

/// A part of a mapping shows the same bytes of the buffer as the mapping did: the distance from the
/// start and the offset change together.
pub proof fn lemma_parts_show(m: Mapping, start: int, end: int, i: int, x: int)
    requires
        m.wf(),
        !m.single,
        0 <= start <= end <= u64::MAX,
        0 <= i < parts_of(m, start, end).len(),
        parts_of(m, start, end)[i].start <= x < parts_of(m, start, end)[i].end,
    ensures
        ({
            let part = parts_of(m, start, end)[i];
            &&& part.object == m.object
            &&& part.offset + (x - part.start) == m.offset + (x - m.start)
            &&& m.start <= x < m.end
        }),
{
}

} // verus!
