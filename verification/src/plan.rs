//! Plans: what is to be stored where, decided before anything is stored.
use crate::bytes;
use crate::bytes::{encode, w32, w64};
use vstd::prelude::*;

verus! {

/// Bytes for an address of the firmware. A live write is published at once, other writes with the
/// next synchronization.
pub struct Write {
    pub va: u64,
    pub bytes: Vec<u8>,
    pub live: bool,
}

/// A write, in a contract.
pub type Stored = (u64, Seq<u8>, bool);

/// The writes of a plan.
pub open spec fn stored(writes: Seq<Write>) -> Seq<Stored> {
    Seq::new(writes.len(), |i: int| (writes[i].va, writes[i].bytes@, writes[i].live))
}

/// A copy of some bytes.
pub fn copied(source: &[u8]) -> (out: Vec<u8>)
    ensures
        out@ == source@,
{
    let mut out: Vec<u8> = Vec::new();
    let mut i: usize = 0;
    while i < source.len()
        invariant
            i <= source@.len(),
            out@ == source@.take(i as int),
        decreases source@.len() - i,
    {
        out.push(source[i]);
        i += 1;
        assert(out@ =~= source@.take(i as int));
    }
    assert(source@.take(i as int) =~= source@);
    out
}

/// Adds a write to a plan.
pub fn push_write(writes: &mut Vec<Write>, va: u64, source: &[u8], live: bool)
    ensures
        stored(final(writes)@) == stored(old(writes)@).push((va, source@, live)),
{
    let ghost before = writes@;
    writes.push(Write { va, bytes: copied(source), live });
    assert(stored(writes@) =~= stored(before).push((va, source@, live)));
}

/// The bytes of a word.
pub open spec fn word(value: u32) -> Seq<u8> {
    bytes::image(4, seq![w32(0, value)])
}

/// The bytes of a double word.
pub open spec fn double(value: u64) -> Seq<u8> {
    bytes::image(8, seq![w64(0, value)])
}

/// Adds a live write of a word to a plan.
pub fn push_word(writes: &mut Vec<Write>, va: u64, value: u32)
    ensures
        stored(final(writes)@) == stored(old(writes)@).push((va, word(value), true)),
{
    let fields = [w32(0, value)];
    assert(fields@ =~= seq![w32(0, value)]);
    let source: [u8; 4] = encode::<4>(&fields);
    push_write(writes, va, &source, true);
}

/// Adds a live write of a double word to a plan.
pub fn push_double(writes: &mut Vec<Write>, va: u64, value: u64)
    ensures
        stored(final(writes)@) == stored(old(writes)@).push((va, double(value), true)),
{
    let fields = [w64(0, value)];
    assert(fields@ =~= seq![w64(0, value)]);
    let source: [u8; 8] = encode::<8>(&fields);
    push_write(writes, va, &source, true);
}

} // verus!
