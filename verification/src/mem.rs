//! Operands of translation invalidations.
use vstd::prelude::*;

verus! {

/// The operand bits of a page. Addresses are given in units of 4 KiB even though the GPU page size is
/// 16 KiB, so the two low bits are clear.
pub open spec fn page_operand(va: int) -> int {
    (va / 0x1000) % 0x1000_0000_0000 / 4 * 4
}

/// The operand bits of an address space.
pub open spec fn space_operand(asid: Option<u8>) -> int {
    match asid {
        Some(asid) => asid * 0x1_0000_0000_0000,
        None => 0,
    }
}

/// Number of pages that a range touches.
pub open spec fn page_count(start: int, end: int) -> int {
    if start < end {
        (end - start + 0x3fff) / 0x4000
    } else {
        0
    }
}

/// The operands that invalidate the pages of a range.
pub open spec fn operands(asid: Option<u8>, start: int, end: int) -> Seq<u64> {
    Seq::new(
        page_count(start, end) as nat,
        |i: int| (page_operand(start + i * 0x4000) + space_operand(asid)) as u64,
    )
}

/// The operand that invalidates a whole address space.
pub fn tlbi_asid(asid: u8) -> (out: u64)
    ensures
        out == asid * 0x1_0000_0000_0000,
{
    asid as u64 * 0x1_0000_0000_0000
}

/// The operands that invalidate only the pages of a range: in one address space, or in all of them,
/// global firmware mappings among them. Entry writes are published before these, and the batch is
/// completed after them.
pub fn tlbi_range(asid: Option<u8>, start: u64, end: u64) -> (out: Vec<u64>)
    ensures
        out@ == operands(asid, start as int, end as int),
{
    let mut out: Vec<u64> = Vec::new();
    if start >= end {
        assert(out@ =~= operands(asid, start as int, end as int));
        return out;
    }
    let count: u64 = (end - start - 1) / 0x4000 + 1;
    assert(count == page_count(start as int, end as int));
    let space: u64 = match asid {
        Some(asid) => asid as u64 * 0x1_0000_0000_0000,
        None => 0,
    };
    let mut i: u64 = 0;
    while i < count
        invariant
            start < end,
            i <= count,
            count == (end - start - 1) / 0x4000 + 1,
            count == page_count(start as int, end as int),
            space == space_operand(asid),
            space <= 0xff_0000_0000_0000,
            out@ == operands(asid, start as int, end as int).take(i as int),
        decreases count - i,
    {
        assert(i * 0x4000 <= end - start - 1);
        let va: u64 = start + i * 0x4000;
        out.push((va / 0x1000) % 0x1000_0000_0000 / 4 * 4 + space);
        i += 1;
        assert(out@ =~= operands(asid, start as int, end as int).take(i as int));
    }
    assert(out@ =~= operands(asid, start as int, end as int));
    out
}

} // verus!
