//! Wrapping firmware completion stamps, independent of software sequence counts.
use vstd::prelude::*;

verus! {

/// Distance between the stamps of two consecutive commands.
pub const STEP: u32 = 0x100;

/// The stamp of a command, by its ordinal and the stamp of the first command.
pub open spec fn stamp_of(ordinal: int, first: int) -> int {
    (first + ordinal * 0x100) % 0x1_0000_0000
}

/// Whether a stamp is at or after another one in modular order.
pub open spec fn at_or_after(current: int, target: int) -> bool {
    (current - target) % 0x1_0000_0000 < 0x8000_0000
}

/// The stamp of a command. The first command has ordinal zero. Only the stamp wraps; callers keep the
/// full ordinal for accounting and command identities.
pub fn value(ordinal: u64, first: u32) -> (out: u32)
    ensures
        out == stamp_of(ordinal as int, first as int),
{
    let low: u32 = (ordinal % 0x1_0000_0000) as u32;
    let step: u32 = low.wrapping_mul(STEP);
    proof {
        assert(step == (low * 0x100) % 0x1_0000_0000);
    }
    first.wrapping_add(step)
}

/// The stamp one step earlier, which no completion of `target` can have. Zero cannot serve: it is a
/// valid stamp and sorts after high stamps.
pub fn previous(target: u32) -> (out: u32)
    ensures
        out == (target - 0x100) % 0x1_0000_0000,
{
    target.wrapping_sub(STEP)
}

/// Whether a stamp has come to its target. Admission bounds outstanding work to much less than half
/// the stamp range, which makes this comparison unambiguous across rollover.
pub fn reached(current: u32, target: u32) -> (out: bool)
    ensures
        out == at_or_after(current as int, target as int),
{
    current.wrapping_sub(target) < 0x8000_0000
}

/// The stamp of the next command is one step later, also where the ordinal wraps.
pub proof fn lemma_stamp_next(ordinal: u64, next: u64, first: int)
    requires
        next == (ordinal + 1) % 0x1_0000_0000_0000_0000,
    ensures
        stamp_of(next as int, first) == (stamp_of(ordinal as int, first) + STEP) % 0x1_0000_0000,
{
}

/// Stamps order commands by their ordinals as long as these are less than half the stamp range apart.
pub proof fn lemma_stamps_order(a: int, b: int, first: int)
    requires
        0 <= a,
        0 <= b,
        -0x80_0000 <= a - b < 0x80_0000,
    ensures
        at_or_after(stamp_of(a, first), stamp_of(b, first)) == (a >= b),
{
}

/// The stamp before a target has not reached it.
pub proof fn lemma_previous_is_pending(target: u32)
    ensures
        !at_or_after((target - 0x100) % 0x1_0000_0000, target as int),
{
}

} // verus!
