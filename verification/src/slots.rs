//! Leases of numbered slots, kept as the bits of a mask.
use vstd::prelude::*;

verus! {

/// Whether a slot is leased.
pub open spec fn leased(mask: u64, slot: int) -> bool {
    (mask >> (slot as u64)) & 1 == 1
}

/// A mask with one more slot leased.
#[verifier::allow_in_spec]
pub fn with_slot(mask: u64, slot: u32) -> u64
    requires
        slot < 64,
    returns
        mask | (1u64 << (slot as u64)),
{
    mask | (1u64 << (slot as u64))
}

/// A mask with a slot given back.
#[verifier::allow_in_spec]
pub fn without_slot(mask: u64, slot: u32) -> u64
    requires
        slot < 64,
    returns
        mask & !(1u64 << (slot as u64)),
{
    mask & !(1u64 << (slot as u64))
}

/// The lowest free slot below a limit.
pub fn free_slot(mask: u64, limit: u32) -> (out: Option<u32>)
    requires
        limit <= 64,
    ensures
        match out {
            Some(slot) => slot < limit && !leased(mask, slot as int) && forall|i: int|
                0 <= i < slot ==> #[trigger] leased(mask, i),
            None => forall|i: int| 0 <= i < limit ==> #[trigger] leased(mask, i),
        },
{
    let mut slot: u32 = 0;
    while slot < limit
        invariant
            slot <= limit,
            limit <= 64,
            forall|i: int| 0 <= i < slot ==> #[trigger] leased(mask, i),
        decreases limit - slot,
    {
        if (mask >> (slot as u64)) & 1 != 1 {
            assert(!leased(mask, slot as int));
            return Some(slot);
        }
        assert(leased(mask, slot as int));
        slot += 1;
    }
    None
}

/// Leasing a slot and giving it back changes no other slot.
pub proof fn lemma_slots(mask: u64, slot: u32, other: u32)
    requires
        slot < 64,
        other < 64,
    ensures
        leased(with_slot(mask, slot), other as int) == (other == slot || leased(mask, other as int)),
        leased(without_slot(mask, slot), other as int) == (other != slot && leased(
            mask,
            other as int,
        )),
{
    let a = slot as u64;
    let b = other as u64;
    assert((((mask | (1u64 << a)) >> b) & 1 == 1) == (b == a || (mask >> b) & 1 == 1) && (((mask & !(
    1u64 << a)) >> b) & 1 == 1) == (b != a && (mask >> b) & 1 == 1)) by (bit_vector)
        requires
            a < 64,
            b < 64,
    ;
}

/// A lease that is given back leaves the mask as it was.
pub proof fn lemma_lease_undone(mask: u64, slot: u32)
    requires
        slot < 64,
        !leased(mask, slot as int),
    ensures
        without_slot(with_slot(mask, slot), slot) == mask,
{
    let a = slot as u64;
    assert((mask >> a) & 1 != 1);
    assert((mask | (1u64 << a)) & !(1u64 << a) == mask) by (bit_vector)
        requires
            a < 64,
            (mask >> a) & 1 != 1,
    ;
}

} // verus!
