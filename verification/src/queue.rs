//! Queue transport fields, independent of allocation addresses.
use crate::bytes;
use crate::bytes::{encode, fill, store, w16, w32, w64, w8, Field};
use vstd::prelude::*;

verus! {

/// Bootstrap completion stamp; public workqueues allocate their own storage.
pub const STAMP: u64 = 0xffff_fc20_0013_8000;

/// Stores a four byte field.
pub fn u32_at(out: &mut [u8], offset: usize, value: u32)
    requires
        offset + 4 <= old(out)@.len(),
    ensures
        final(out)@ == bytes::overlay(old(out)@, seq![w32(offset, value)]),
{
    store(out, w32(offset, value));
}

/// Stores an eight byte field.
pub fn u64_at(out: &mut [u8], offset: usize, value: u64)
    requires
        offset + 8 <= old(out)@.len(),
    ensures
        final(out)@ == bytes::overlay(old(out)@, seq![w64(offset, value)]),
{
    store(out, w64(offset, value));
}

/// The addresses that one hardware queue is made of, and its identity.
#[derive(Clone, Copy, Debug, PartialEq, Eq, Structural)]
pub struct Queue {
    pub pointers: u64,
    pub ring: u64,
    pub jobs: u64,
    pub private: u64,
    pub context: u64,
    pub uuid: u32,
}

impl Queue {
    /// The fields of a queue descriptor, with the scheduler profile of priority zero.
    pub open spec fn fields(self) -> Seq<Field> {
        seq![
            w64(0, self.pointers),
            w64(8, self.ring),
            w64(0x10, self.jobs),
            w64(0x18, self.private),
            w64(0xa4, self.context),
            w64(0x38, 0xffff_ffff_ffff_0000),
            w32(0x2c, 0xffff_ffff),
            w32(0x40, 1),
            w32(0x48, 1),
            w32(0x4c, 0xffff_ffff),
            w32(0x50, self.uuid),
        ]
    }

    /// The fields by which the scheduler profile of a priority differs.
    pub open spec fn profile(priority: u32) -> Option<Seq<Field>> {
        if priority == 0 {
            Some(Self::profile_fields(priority, 0xffff_ffff_ffff_0000, 1, 1))
        } else if priority == 1 {
            Some(Self::profile_fields(priority, 0xffff_ffff_0000_0000, 0, 0))
        } else if priority == 2 {
            Some(Self::profile_fields(priority, 0xffff_0000_0000_0000, 0, 2))
        } else if priority == 3 {
            Some(Self::profile_fields(priority, 0, 0, 3))
        } else {
            None
        }
    }

    /// The fields of one scheduler profile.
    pub open spec fn profile_fields(priority: u32, mask: u64, first: u32, last: u32) -> Seq<Field> {
        seq![
            w32(0x30, priority),
            w32(0x34, priority),
            w64(0x38, mask),
            w32(0x40, first),
            w32(0x48, last),
        ]
    }

    /// The queue descriptor for priority zero.
    pub fn encode(&self) -> (out: [u8; 0xb0])
        ensures
            out@ == bytes::image(0xb0, self.fields()),
    {
        let fields = [
            w64(0, self.pointers),
            w64(8, self.ring),
            w64(0x10, self.jobs),
            w64(0x18, self.private),
            w64(0xa4, self.context),
            w64(0x38, 0xffff_ffff_ffff_0000),
            w32(0x2c, 0xffff_ffff),
            w32(0x40, 1),
            w32(0x48, 1),
            w32(0x4c, 0xffff_ffff),
            w32(0x50, self.uuid),
        ];
        assert(fields@ =~= self.fields());
        encode::<0xb0>(&fields)
    }

    /// The queue descriptor for one of the four priorities.
    pub fn encode_priority(&self, priority: u32) -> (out: Option<[u8; 0xb0]>)
        ensures
            match Self::profile(priority) {
                Some(profile) => out is Some && (out->0)@ == bytes::overlay(
                    bytes::image(0xb0, self.fields()),
                    profile,
                ),
                None => out is None,
            },
    {
        let (mask, first, last): (u64, u32, u32) = match priority {
            0 => (0xffff_ffff_ffff_0000, 1, 1),
            1 => (0xffff_ffff_0000_0000, 0, 0),
            2 => (0xffff_0000_0000_0000, 0, 2),
            3 => (0, 0, 3),
            _ => {
                return None;
            },
        };
        let mut out: [u8; 0xb0] = self.encode();
        let fields = [
            w32(0x30, priority),
            w32(0x34, priority),
            w64(0x38, mask),
            w32(0x40, first),
            w32(0x48, last),
        ];
        assert(fields@ =~= Self::profile_fields(priority, mask, first, last));
        fill(&mut out, &fields);
        Some(out)
    }
}

/// The cursors of a ring that holds `capacity` entries and is filled up to `write`.
pub fn pointers(capacity: u32, write: u32) -> (out: [u8; 0x60])
    ensures
        out@ == bytes::image(0x60, seq![w32(0x40, write), w32(0x50, capacity)]),
{
    let fields = [w32(0x40, write), w32(0x50, capacity)];
    assert(fields@ =~= seq![w32(0x40, write), w32(0x50, capacity)]);
    encode::<0x60>(&fields)
}

/// An idle queue context.
pub fn context() -> (out: [u8; 0x40])
    ensures
        out@ == bytes::image(
            0x40,
            seq![w16(0, 0xffff), w8(5, 1), w8(0x26, 2), w8(0x33, 0xff)],
        ),
{
    let fields = [w16(0, 0xffff), w8(5, 1), w8(0x26, 2), w8(0x33, 0xff)];
    assert(fields@ =~= seq![w16(0, 0xffff), w8(5, 1), w8(0x26, 2), w8(0x33, 0xff)]);
    encode::<0x40>(&fields)
}

/// The job list of a queue.
pub fn jobs(address: u64) -> (out: [u8; 0x18])
    ensures
        out@ == bytes::image(0x18, seq![w64(8, address)]),
{
    let fields = [w64(8, address)];
    assert(fields@ =~= seq![w64(8, address)]);
    encode::<0x18>(&fields)
}

/// The fields of a barrier command.
pub open spec fn barrier_fields(
    stamp: u64,
    wait: u32,
    event: u32,
    stamp_self: u32,
    uuid: u32,
) -> Seq<Field> {
    seq![
        w32(0, 4),
        w64(4, stamp),
        w32(0xc, wait),
        w32(0x10, event),
        w32(0x14, stamp_self),
        w32(0x18, uuid),
    ]
}

/// The barrier between the tiling and fragment works of one render.
pub fn barrier(stamp: u64, wait: u32, event: u32, stamp_self: u32, uuid: u32) -> (out: [u8; 0x40])
    ensures
        out@ == bytes::image(0x40, barrier_fields(stamp, wait, event, stamp_self, uuid)),
{
    let fields = [
        w32(0, 4),
        w64(4, stamp),
        w32(0xc, wait),
        w32(0x10, event),
        w32(0x14, stamp_self),
        w32(0x18, uuid),
    ];
    assert(fields@ =~= barrier_fields(stamp, wait, event, stamp_self, uuid));
    encode::<0x40>(&fields)
}

/// The fields of a dependency command.
pub open spec fn dependency_fields(
    stamp: u64,
    wait: u32,
    event: u32,
    stamp_self: u32,
    uuid: u32,
) -> Seq<Field> {
    seq![
        w32(0, 4),
        w64(4, stamp),
        w64(0xc, stamp),
        w32(0x14, wait),
        w32(0x20, event),
        w32(0x24, stamp_self),
        w32(0x28, uuid),
        w32(0x30, 1),
    ]
}

/// A general dependency, before a consuming tiling, fragment or compute work. Type 1 takes part in the
/// firmware's dynamic dependency graph; the prelude between tiling and fragment keeps type 0 for
/// partial-render scheduling.
pub fn dependency(stamp: u64, wait: u32, event: u32, stamp_self: u32, uuid: u32) -> (out: [u8; 0x40])
    ensures
        out@ == bytes::image(0x40, dependency_fields(stamp, wait, event, stamp_self, uuid)),
{
    let fields = [
        w32(0, 4),
        w64(4, stamp),
        w64(0xc, stamp),
        w32(0x14, wait),
        w32(0x20, event),
        w32(0x24, stamp_self),
        w32(0x28, uuid),
        w32(0x30, 1),
    ];
    assert(fields@ =~= dependency_fields(stamp, wait, event, stamp_self, uuid));
    encode::<0x40>(&fields)
}

/// The fields of a channel message that announces a queue.
pub open spec fn channel_fields(
    queue: u64,
    head: u16,
    event: u8,
    kind: u32,
    first: bool,
    tag: u64,
) -> Seq<Field> {
    seq![
        w64(0, tag),
        w64(8, queue),
        w32(0x10, kind),
        w16(0x14, head),
        w8(0x16, event),
        w8(
            0x17,
            if first {
                1
            } else {
                0
            },
        ),
    ]
}

/// A channel message that announces a queue.
pub fn channel(queue: u64, head: u16, event: u8, kind: u32, first: bool, tag: u64) -> (out: [u8; 0x18])
    ensures
        out@ == bytes::image(0x18, channel_fields(queue, head, event, kind, first, tag)),
{
    let fields = [
        w64(0, tag),
        w64(8, queue),
        w32(0x10, kind),
        w16(0x14, head),
        w8(0x16, event),
        w8(
            0x17,
            if first {
                1
            } else {
                0
            },
        ),
    ];
    assert(fields@ =~= channel_fields(queue, head, event, kind, first, tag));
    encode::<0x18>(&fields)
}

} // verus!
