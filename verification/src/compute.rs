//! Compute work and microsequence encoding.
//!
//! All links are supplied by the owner of the work allocation.
use crate::bytes;
use crate::bytes::{at, encode, high32, low32, w32, w64, w8, Field};
use vstd::prelude::*;

verus! {

/// Address of the compute queue descriptor.
pub const QUEUE: u64 = 0xffff_fc20_c500_0000;

/// Address of the compute statistics.
pub const STATS: u64 = 0xffff_fc20_c500_8000;

/// Address of the shared compute state.
pub const SHARED: u64 = 0xffff_fc20_0200_0000;

/// Size of the private part of a work.
pub const PRIVATE_SIZE: usize = 0x24000;

/// Address of the page directory of the opening compute namespace, which belongs to the device and is
/// aliased into whichever client root is active.
pub const DIRECTORY: u64 = 0x70_02cc_0000;

/// Size of the page directory.
pub const DIRECTORY_SIZE: usize = 0x18000;

/// Address of the first private buffer.
pub const BUFFER_BASE: u64 = 0x70_0310_8000;

/// Distance between private buffers.
pub const BUFFER_STRIDE: u64 = 0x208000;

/// Size of a private buffer.
pub const BUFFER_SIZE: usize = 0x200000;

/// Number of private buffers.
pub const BUFFER_COUNT: usize = 16;

/// Address of the scratch area.
pub const SCRATCH: u64 = 0x70_030e_0000;

/// Address of the marker page.
pub const MARKER: u64 = 0x10_00c6_0000;

/// Address of the support block.
pub const SUPPORT: u64 = 0xffff_fc20_c05e_8000;

/// Address of the state that the support block names.
pub const SHARED_STATE: u64 = 0xffff_fc20_001b_0000;

/// Offset of the entry stream in a work.
pub const ENTRY_OFFSET: u64 = 0x1a00;

/// The words of an entry stream.
pub open spec fn entry_fields(stream: u64) -> Seq<Field> {
    seq![
        w32(0, 0x600f_ffff),
        w32(4, 0x2000_0000 | high32(stream)),
        w32(8, low32(stream)),
    ]
}

/// Drains and invalidates compute caches before entering the caller's command stream. Back-to-back
/// works require the full barrier.
pub fn entry(stream: u64) -> (out: [u8; 0xc])
    ensures
        out@ == bytes::image(0xc, entry_fields(stream)),
{
    let fields = [
        w32(0, 0x600f_ffff),
        w32(4, 0x2000_0000 | high32(stream)),
        w32(8, low32(stream)),
    ];
    assert(fields@ =~= entry_fields(stream));
    encode::<0xc>(&fields)
}

/// The ranges that belong to the device rather than to a client.
pub fn private_ranges() -> (out: [(u64, usize); 19])
    ensures
        out@[0] == (DIRECTORY, DIRECTORY_SIZE),
        out@[1] == (SCRATCH, 0x20000usize),
        out@[2] == (MARKER, 0x4000usize),
        forall|i: int|
            3 <= i < 19 ==> #[trigger] out@[i] == (
                (BUFFER_BASE + (i - 3) * BUFFER_STRIDE) as u64,
                BUFFER_SIZE,
            ),
{
    [
        (DIRECTORY, DIRECTORY_SIZE),
        (SCRATCH, 0x20000),
        (MARKER, 0x4000),
        (BUFFER_BASE + 0 * BUFFER_STRIDE, BUFFER_SIZE),
        (BUFFER_BASE + 1 * BUFFER_STRIDE, BUFFER_SIZE),
        (BUFFER_BASE + 2 * BUFFER_STRIDE, BUFFER_SIZE),
        (BUFFER_BASE + 3 * BUFFER_STRIDE, BUFFER_SIZE),
        (BUFFER_BASE + 4 * BUFFER_STRIDE, BUFFER_SIZE),
        (BUFFER_BASE + 5 * BUFFER_STRIDE, BUFFER_SIZE),
        (BUFFER_BASE + 6 * BUFFER_STRIDE, BUFFER_SIZE),
        (BUFFER_BASE + 7 * BUFFER_STRIDE, BUFFER_SIZE),
        (BUFFER_BASE + 8 * BUFFER_STRIDE, BUFFER_SIZE),
        (BUFFER_BASE + 9 * BUFFER_STRIDE, BUFFER_SIZE),
        (BUFFER_BASE + 10 * BUFFER_STRIDE, BUFFER_SIZE),
        (BUFFER_BASE + 11 * BUFFER_STRIDE, BUFFER_SIZE),
        (BUFFER_BASE + 12 * BUFFER_STRIDE, BUFFER_SIZE),
        (BUFFER_BASE + 13 * BUFFER_STRIDE, BUFFER_SIZE),
        (BUFFER_BASE + 14 * BUFFER_STRIDE, BUFFER_SIZE),
        (BUFFER_BASE + 15 * BUFFER_STRIDE, BUFFER_SIZE),
    ]
}

/// The fields of the support block: the directory with its entries, and the pages behind it.
pub open spec fn support_fields() -> Seq<Field> {
    seq![
        w64(0, 2),
        w64(0x14, DIRECTORY),
        w32(0x1c, 0x3000),
        w32(0x24, 0x2000),
        w32(0x2c, 0x2000),
        w64(0x4c, SHARED_STATE),
    ]
}

/// The support block of the compute namespace.
pub fn support() -> (out: [u8; 0x100])
    ensures
        out@ == bytes::image(0x100, support_fields()),
{
    let fields = [
        w64(0, 2),
        w64(0x14, DIRECTORY),
        w32(0x1c, 0x3000),
        w32(0x24, 0x2000),
        w32(0x2c, 0x2000),
        w64(0x4c, SHARED_STATE),
    ];
    assert(fields@ =~= support_fields());
    encode::<0x100>(&fields)
}

/// What a compute command asks for.
#[derive(Clone, Copy, Debug, PartialEq, Eq, Structural)]
pub struct Parameters {
    pub cdm: u64,
    pub cdm_end: u64,
    pub sampler: u64,
    pub sampler_count: u32,
    pub scratch: u64,
    pub marker: u64,
    pub resource: u64,
}

/// Where the parts of a compute work are, and how it is told apart.
#[derive(Clone, Copy, Debug, PartialEq, Eq, Structural)]
pub struct Addresses {
    pub work: u64,
    pub microsequence: u64,
    pub register_table: u64,
    pub queue: u64,
    pub stats: u64,
    pub support: u64,
    pub notifier: u64,
    pub threshold: u64,
    pub driver_stamp: u64,
    pub firmware_stamp: u64,
    pub timestamp_start: u64,
    pub timestamp_end: u64,
    pub context: u32,
    pub identity: u64,
    pub register_identity: u64,
    pub counter: u64,
    pub event_generation: u32,
    pub stamp: u32,
    pub event: u32,
    pub ordinal: u32,
    pub cdm_entry: Option<u64>,
}

/// Whether a work can be numbered: the index keeps its stamp in range, the ordinal its word.
pub open spec fn numbered(index: u64, ordinal: u64) -> bool {
    index <= 0x00ff_fff0 && ordinal <= 0xffff_ffff
}

impl Addresses {
    /// The addresses of a freshly allocated work, which its owner retains.
    pub fn publication(index: u64, ordinal: u64, work: u64, alias: u64) -> (out: Option<Self>)
        requires
            numbered(index, ordinal) ==> work + 0x1800 <= u64::MAX && alias + 0x20 <= u64::MAX,
        ensures
            out == if numbered(index, ordinal) {
                Some(
                    Addresses {
                        work,
                        microsequence: (work + 0x1000) as u64,
                        register_table: (alias + 0x20) as u64,
                        queue: QUEUE,
                        stats: STATS,
                        support: SUPPORT,
                        notifier: (work + 0x1400) as u64,
                        threshold: (work + 0x1800) as u64,
                        driver_stamp: (work + 0x1600) as u64,
                        firmware_stamp: (work + 0x1680) as u64,
                        timestamp_start: (work + 0x1700) as u64,
                        timestamp_end: (work + 0x1708) as u64,
                        context: 1,
                        identity: (0x1_0000_0001 + index) as u64,
                        register_identity: 0x1_0000_0001,
                        counter: (index + 1) as u64,
                        event_generation: (index + 1) as u32,
                        stamp: ((index + 1) * 0x100) as u32,
                        event: 4,
                        ordinal: ordinal as u32,
                        cdm_entry: None,
                    },
                )
            } else {
                None
            },
    {
        if index > 0x00ff_fff0 || ordinal > 0xffff_ffff {
            return None;
        }
        Some(
            Self {
                work,
                microsequence: work + 0x1000,
                register_table: alias + 0x20,
                queue: QUEUE,
                stats: STATS,
                support: SUPPORT,
                notifier: work + 0x1400,
                threshold: work + 0x1800,
                driver_stamp: work + 0x1600,
                firmware_stamp: work + 0x1680,
                timestamp_start: work + 0x1700,
                timestamp_end: work + 0x1708,
                context: 1,
                identity: 0x1_0000_0001 + index,
                register_identity: 0x1_0000_0001,
                counter: index + 1,
                event_generation: (index + 1) as u32,
                stamp: ((index + 1) * 0x100) as u32,
                event: 4,
                ordinal: ordinal as u32,
                cdm_entry: None,
            },
        )
    }

    /// The fields of a notifier.
    pub open spec fn notifier_fields(self, count: u32) -> Seq<Field> {
        seq![
            w64(0, self.threshold),
            w32(8, self.event_generation),
            w32(12, count),
            w32(16, 0x50),
            w32(0x24, self.context),
        ]
    }

    /// The notifier of a work that has to be raised `count` times.
    pub fn notifier(&self, count: u32) -> (out: [u8; 0x100])
        ensures
            out@ == bytes::image(0x100, self.notifier_fields(count)),
    {
        let fields = [
            w64(0, self.threshold),
            w32(8, self.event_generation),
            w32(12, count),
            w32(16, 0x50),
            w32(0x24, self.context),
        ];
        assert(fields@ =~= self.notifier_fields(count));
        encode::<0x100>(&fields)
    }

    /// The command stream that the hardware enters.
    pub open spec fn entry_of(self, p: Parameters) -> u64 {
        match self.cdm_entry {
            Some(entry) => entry,
            None => p.cdm,
        }
    }
}

/// The extended number of samplers, which counts one more than there are.
#[verifier::allow_in_spec]
pub fn extended(count: u32) -> u32
    requires
        count < 0xffff_ffff,
    returns
        (if count == 0 {
            0
        } else {
            (count + 1) as u32
        }),
{
    if count == 0 {
        0
    } else {
        count + 1
    }
}

/// The sampler heap, or the mark of an absent one.
#[verifier::allow_in_spec]
pub fn heap(count: u32, address: u64) -> u64
    returns
        (if count == 0 {
            0xffff_ffff
        } else {
            address
        }),
{
    if count == 0 {
        0xffff_ffff
    } else {
        address
    }
}

impl Parameters {
    /// Whether the streams are aligned and in order, and samplers have a heap exactly if there are any.
    pub open spec fn is_valid(self) -> bool {
        &&& self.cdm != 0
        &&& self.cdm % 4 == 0
        &&& self.cdm_end > self.cdm
        &&& self.cdm_end % 4 == 0
        &&& self.sampler % 8 == 0
        &&& self.sampler_count < 0xffff_ffff
        &&& (self.sampler_count == 0) == (self.sampler == 0)
    }

    /// Whether the streams are aligned and in order, and samplers have a heap exactly if there are any.
    pub fn valid(&self) -> (out: bool)
        ensures
            out == self.is_valid(),
    {
        self.cdm != 0 && self.cdm % 4 == 0 && self.cdm_end > self.cdm && self.cdm_end % 4 == 0
            && self.sampler % 8 == 0 && self.sampler_count < 0xffff_ffff && (self.sampler_count
            == 0) == (self.sampler == 0)
    }

    /// The fields of a compute work: its head, the register table and the descriptors behind it.
    pub open spec fn work_fields(self, a: Addresses) -> Seq<Field> {
        seq![
            w32(0, 3),
            w64(4, a.counter),
            w32(12, a.context),
            w64(16, a.notifier),
            w32(0x20, 0x1a510),
            w64(0x24, self.resource),
            w32(0x2c, 0x1a420),
            w64(0x30, a.entry_of(self)),
            w32(0x38, 0x1a4d0),
            w64(0x3c, at(self.resource, 0x1480)),
            w32(0x44, 0x1a4d8),
            w64(0x48, at(self.resource, 0x1488)),
            w32(0x50, 0x1a4e0),
            w64(0x54, at(self.resource, 0x1490)),
            w32(0x5c, 0x1a4e8),
            w64(0x60, at(self.resource, 0x1498)),
            w32(0x68, 0x1a440),
            w64(0x6c, 0x1_5402_4201),
            w32(0x74, 0x1a458),
            w64(0x78, 0x10c0_8ae0),
            w32(0x80, 0x101d9),
            w64(0x84, 0x1c),
            w32(0x8c, 0x1a089),
            w64(0x90, 0),
            w32(0x98, 0x1a091),
            w64(0x9c, 0),
            w32(0xa4, 0x1a059),
            w64(0xa8, 0),
            w32(0xb0, 0x1a061),
            w64(0xb4, 0),
            w32(0xbc, 0x1a0b9),
            w64(0xc0, 0),
            w32(0xc8, 0x1a0c1),
            w64(0xcc, 0),
            w32(0xd4, 0x101d1),
            w64(0xd8, 0),
            w32(0xe0, 0xd479),
            w64(0xe4, 0),
            w32(0xec, 0x1a0e9),
            w64(0xf0, 8),
            w32(0xf8, 0x107a1),
            w64(0xfc, 0x00ff_0000),
            w32(0x104, 0xa599),
            w64(0x108, 0x200_0040_0020),
            w32(0x110, 0xd411),
            w64(0x114, 0x2_0000_0001),
            w32(0x11c, 0x1a540),
            w64(0x120, a.register_identity),
            w32(0x128, 0x14a9),
            w64(0x12c, a.register_identity),
            w32(0x134, 0xa351),
            w64(0x138, a.register_identity),
            w64(0x720, a.register_table),
            w64(0x760, a.microsequence),
            w64(0x798, self.resource),
            w64(0x7a0, (self.cdm_end - 4) as u64),
            w64(0x7e8, heap(self.sampler_count, self.sampler)),
            w64(0x800, a.driver_stamp),
            w64(0x808, a.firmware_stamp),
            w64(0x834, a.timestamp_start),
            w64(0x83c, a.timestamp_end),
            w64(0x86a, a.support),
            w64(0x883, 0),
            w32(0x728, 0x1200018),
            w32(0x768, 0x300),
            w32(0x7c8, 0x5402_4201),
            w32(0x7cc, 1),
            w32(0x7e0, high32(a.identity)),
            w32(0x7f0, self.sampler_count),
            w32(0x7f4, extended(self.sampler_count)),
            w32(0x810, a.stamp),
            w32(0x814, a.event),
            w32(0x820, low32(a.identity)),
            w32(0x828, a.ordinal),
            w32(0x874, 0x21b00),
            w32(0x87c, 0x11700),
            w8(0x872, 1),
            w8(0x88b, 1),
        ]
    }

    /// A compute work, unless the parameters are invalid.
    pub fn work(&self, a: &Addresses) -> (out: Option<[u8; 0x8c0]>)
        requires
            self.is_valid() ==> self.resource + 0x1498 <= u64::MAX,
        ensures
            if self.is_valid() {
                out is Some && (out->0)@ == bytes::image(0x8c0, self.work_fields(*a))
            } else {
                out is None
            },
    {
        if !self.valid() {
            return None;
        }
        let entry: u64 = match a.cdm_entry {
            Some(entry) => entry,
            None => self.cdm,
        };
        let fields = [
            w32(0, 3),
            w64(4, a.counter),
            w32(12, a.context),
            w64(16, a.notifier),
            w32(0x20, 0x1a510),
            w64(0x24, self.resource),
            w32(0x2c, 0x1a420),
            w64(0x30, entry),
            w32(0x38, 0x1a4d0),
            w64(0x3c, at(self.resource, 0x1480)),
            w32(0x44, 0x1a4d8),
            w64(0x48, at(self.resource, 0x1488)),
            w32(0x50, 0x1a4e0),
            w64(0x54, at(self.resource, 0x1490)),
            w32(0x5c, 0x1a4e8),
            w64(0x60, at(self.resource, 0x1498)),
            w32(0x68, 0x1a440),
            w64(0x6c, 0x1_5402_4201),
            w32(0x74, 0x1a458),
            w64(0x78, 0x10c0_8ae0),
            w32(0x80, 0x101d9),
            w64(0x84, 0x1c),
            w32(0x8c, 0x1a089),
            w64(0x90, 0),
            w32(0x98, 0x1a091),
            w64(0x9c, 0),
            w32(0xa4, 0x1a059),
            w64(0xa8, 0),
            w32(0xb0, 0x1a061),
            w64(0xb4, 0),
            w32(0xbc, 0x1a0b9),
            w64(0xc0, 0),
            w32(0xc8, 0x1a0c1),
            w64(0xcc, 0),
            w32(0xd4, 0x101d1),
            w64(0xd8, 0),
            w32(0xe0, 0xd479),
            w64(0xe4, 0),
            w32(0xec, 0x1a0e9),
            w64(0xf0, 8),
            w32(0xf8, 0x107a1),
            w64(0xfc, 0x00ff_0000),
            w32(0x104, 0xa599),
            w64(0x108, 0x200_0040_0020),
            w32(0x110, 0xd411),
            w64(0x114, 0x2_0000_0001),
            w32(0x11c, 0x1a540),
            w64(0x120, a.register_identity),
            w32(0x128, 0x14a9),
            w64(0x12c, a.register_identity),
            w32(0x134, 0xa351),
            w64(0x138, a.register_identity),
            w64(0x720, a.register_table),
            w64(0x760, a.microsequence),
            w64(0x798, self.resource),
            w64(0x7a0, self.cdm_end - 4),
            w64(0x7e8, heap(self.sampler_count, self.sampler)),
            w64(0x800, a.driver_stamp),
            w64(0x808, a.firmware_stamp),
            w64(0x834, a.timestamp_start),
            w64(0x83c, a.timestamp_end),
            w64(0x86a, a.support),
            w64(0x883, 0),
            w32(0x728, 0x1200018),
            w32(0x768, 0x300),
            w32(0x7c8, 0x5402_4201),
            w32(0x7cc, 1),
            w32(0x7e0, high32(a.identity)),
            w32(0x7f0, self.sampler_count),
            w32(0x7f4, extended(self.sampler_count)),
            w32(0x810, a.stamp),
            w32(0x814, a.event),
            w32(0x820, low32(a.identity)),
            w32(0x828, a.ordinal),
            w32(0x874, 0x21b00),
            w32(0x87c, 0x11700),
            w8(0x872, 1),
            w8(0x88b, 1),
        ];
        assert(fields@ =~= self.work_fields(*a));
        Some(encode::<0x8c0>(&fields))
    }

    /// The fields of a compute microsequence.
    pub open spec fn microsequence_fields(self, a: Addresses) -> Seq<Field> {
        seq![
            w32(0, 0xb),
            w32(0x2c, a.context),
            w32(0x30, 1),
            w32(0x34, a.event_generation),
            w32(0x50, low32(a.identity)),
            w32(0x1b0, low32(a.counter)),
            w32(0x1b8, a.event),
            w32(0x208, 1),
            w32(0x258, 0xc),
            w32(0x26c, a.context),
            w32(0x27c, low32(a.identity)),
            w32(0x28c, a.stamp),
            w32(0x2bc, 0xfffffda8),
            w32(0x2d4, 0x4000_0002),
            w64(0x14, at(a.work, 0x20)),
            w64(0x1c, a.stats),
            w64(0x24, a.queue),
            w64(0x44, at(a.work, 0x76c)),
            w64(0x160, a.support),
            w64(0x178, self.marker),
            w64(0x188, self.scratch),
            w64(0x190, at(self.scratch, 0xf400)),
            w64(0x198, at(self.scratch, 0x1e800)),
            w64(0x1a0, at(self.scratch, 0x1f000)),
            w64(0x1a8, at(a.work, 0x8ac)),
            w64(0x25c, a.stats),
            w64(0x264, a.queue),
            w64(0x270, at(a.work, 0x76c)),
            w64(0x284, a.firmware_stamp),
            w64(0x2b4, at(a.microsequence, 0x160)),
            w64(0x2c1, at(a.work, 0x8ac)),
            w64(0x2c9, at(a.work, 0x88c)),
            w32(0x1bc, 0x8000_0003),
            w64(0x1c0, at(a.work, 0x82c)),
            w64(0x1c8, at(a.work, 0x834)),
            w64(0x1d0, at(a.work, 0x834)),
            w64(0x1d8, a.queue),
            w64(0x1e8, at(a.work, 0x89c)),
            w64(0x1f0, at(a.work, 0x7dc)),
            w32(0x200, low32(a.identity)),
            w32(0x20c, 3),
            w64(0x210, at(a.work, 0x82c)),
            w64(0x218, at(a.work, 0x834)),
            w64(0x220, at(a.work, 0x83c)),
            w64(0x228, a.queue),
            w64(0x238, at(a.work, 0x89c)),
            w64(0x240, at(a.work, 0x7dc)),
            w32(0x250, low32(a.identity)),
        ]
    }

    /// The microsequence that runs a compute work and stamps its completion.
    pub fn microsequence(&self, a: &Addresses) -> (out: [u8; 0x300])
        requires
            a.work + 0x8ac <= u64::MAX,
            a.microsequence + 0x160 <= u64::MAX,
            self.scratch + 0x1f000 <= u64::MAX,
        ensures
            out@ == bytes::image(0x300, self.microsequence_fields(*a)),
    {
        let fields = [
            w32(0, 0xb),
            w32(0x2c, a.context),
            w32(0x30, 1),
            w32(0x34, a.event_generation),
            w32(0x50, low32(a.identity)),
            w32(0x1b0, low32(a.counter)),
            w32(0x1b8, a.event),
            w32(0x208, 1),
            w32(0x258, 0xc),
            w32(0x26c, a.context),
            w32(0x27c, low32(a.identity)),
            w32(0x28c, a.stamp),
            w32(0x2bc, 0xfffffda8),
            w32(0x2d4, 0x4000_0002),
            w64(0x14, at(a.work, 0x20)),
            w64(0x1c, a.stats),
            w64(0x24, a.queue),
            w64(0x44, at(a.work, 0x76c)),
            w64(0x160, a.support),
            w64(0x178, self.marker),
            w64(0x188, self.scratch),
            w64(0x190, at(self.scratch, 0xf400)),
            w64(0x198, at(self.scratch, 0x1e800)),
            w64(0x1a0, at(self.scratch, 0x1f000)),
            w64(0x1a8, at(a.work, 0x8ac)),
            w64(0x25c, a.stats),
            w64(0x264, a.queue),
            w64(0x270, at(a.work, 0x76c)),
            w64(0x284, a.firmware_stamp),
            w64(0x2b4, at(a.microsequence, 0x160)),
            w64(0x2c1, at(a.work, 0x8ac)),
            w64(0x2c9, at(a.work, 0x88c)),
            w32(0x1bc, 0x8000_0003),
            w64(0x1c0, at(a.work, 0x82c)),
            w64(0x1c8, at(a.work, 0x834)),
            w64(0x1d0, at(a.work, 0x834)),
            w64(0x1d8, a.queue),
            w64(0x1e8, at(a.work, 0x89c)),
            w64(0x1f0, at(a.work, 0x7dc)),
            w32(0x200, low32(a.identity)),
            w32(0x20c, 3),
            w64(0x210, at(a.work, 0x82c)),
            w64(0x218, at(a.work, 0x834)),
            w64(0x220, at(a.work, 0x83c)),
            w64(0x228, a.queue),
            w64(0x238, at(a.work, 0x89c)),
            w64(0x240, at(a.work, 0x7dc)),
            w32(0x250, low32(a.identity)),
        ];
        assert(fields@ =~= self.microsequence_fields(*a));
        encode::<0x300>(&fields)
    }
}

} // verus!
