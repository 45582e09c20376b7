//! Firmware initialization descriptors, serialized independently of structure alignment.
use crate::bytes;
use crate::bytes::{encode, store, w16, w32, w64, w8, Field};
use vstd::prelude::*;

verus! {

/// Address of the root descriptor.
pub const ROOT_ADDRESS: u64 = 0xffff_fc20_0010_0000;

/// Size of the root descriptor.
pub const ROOT_SIZE: usize = 0xc8;

/// Address of the descriptor bundle.
pub const BUNDLE_ADDRESS: u64 = 0xffff_fc20_c04d_8000;

/// Size of the descriptor bundle.
pub const BUNDLE_SIZE: usize = 0x20000;

/// Offset of the main configuration in the bundle.
pub const MAIN_OFFSET: usize = 0x1da40;

/// Size of the main configuration.
pub const MAIN_SIZE: usize = 0x500;

/// Address of the control data.
pub const CONTROL_DATA: u64 = 0xffff_fc20_c052_8000;

/// Address of the auxiliary control data.
pub const CONTROL_AUX: u64 = 0xffff_fc20_0014_8000;

/// Address of the operand table.
pub const OPERAND_TABLE: u64 = 0x70_0040_8000;

/// The fields of the two opening control records.
pub open spec fn opening_control_fields() -> Seq<Field> {
    seq![
        w32(0, 0x16),
        w32(0x40, 0x20),
        w32(0x44, 1),
        w32(0x48, 0x3f),
        w32(0x6c, 160),
        w32(0x74, 1),
        w64(0x54, CONTROL_DATA),
        w64(0x5c, OPERAND_TABLE),
        w64(0x64, OPERAND_TABLE),
    ]
}

/// The two publications following the slot that the firmware has already consumed.
pub fn opening_control() -> (out: [u8; 0x80])
    ensures
        out@ == bytes::image(0x80, opening_control_fields()),
{
    let fields = [
        w32(0, 0x16),
        w32(0x40, 0x20),
        w32(0x44, 1),
        w32(0x48, 0x3f),
        w32(0x6c, 160),
        w32(0x74, 1),
        w64(0x54, CONTROL_DATA),
        w64(0x5c, OPERAND_TABLE),
        w64(0x64, OPERAND_TABLE),
    ];
    assert(fields@ =~= opening_control_fields());
    encode::<0x80>(&fields)
}

/// The fields of the opening free list.
pub open spec fn opening_flist_fields() -> Seq<Field> {
    seq![
        w32(0, 1),
        w32(0x1c, 0x80000),
        w32(0x28, 1),
        w64(0x14, 0x70_0000_0000),
        w64(0x30, OPERAND_TABLE),
        w64(0x4c, CONTROL_AUX),
    ]
}

/// The opening free list; its operand descriptors are admitted by the second opening record.
pub fn opening_flist() -> (out: [u8; 0x80])
    ensures
        out@ == bytes::image(0x80, opening_flist_fields()),
{
    let fields = [
        w32(0, 1),
        w32(0x1c, 0x80000),
        w32(0x28, 1),
        w64(0x14, 0x70_0000_0000),
        w64(0x30, OPERAND_TABLE),
        w64(0x4c, CONTROL_AUX),
    ];
    assert(fields@ =~= opening_flist_fields());
    encode::<0x80>(&fields)
}

/// One freshly owned parameter-buffer descriptor; the firmware owns both cursors. The page list lies
/// in the parameter-buffer window on a line of its own.
pub fn parameter_buffer_descriptor(page_list: u64, page_count: u32) -> (out: Option<[u8; 16]>)
    ensures
        if 0x10_0000_0000 <= page_list < 0x20_0000_0000 && page_list % 0x80 == 0 && 0 < page_count
            < 0x40_0000 {
            out is Some && (out->0)@ == bytes::image(
                16,
                seq![w32(0, ((page_list / 16) % 0x1_0000_0000) as u32), w32(4, page_count)],
            )
        } else {
            out is None
        },
{
    if page_list < 0x10_0000_0000 || page_list >= 0x20_0000_0000 || page_list % 0x80 != 0
        || page_count == 0 || page_count >= 0x40_0000 {
        return None;
    }
    let list: u32 = ((page_list / 16) % 0x1_0000_0000) as u32;
    let fields = [w32(0, list), w32(4, page_count)];
    assert(fields@ =~= seq![
        w32(0, ((page_list / 16) % 0x1_0000_0000) as u32),
        w32(4, page_count),
    ]);
    Some(encode::<16>(&fields))
}

/// Address of a 4 KiB accelerator page within twenty guarded 2 MiB buffers.
pub fn operand_page(index: usize) -> (out: u64)
    requires
        0x70_0042_0000 + (index / 512) * 0x208000 + (index % 512) * 0x1000 <= u64::MAX,
    ensures
        out == 0x70_0042_0000 + (index / 512) * 0x208000 + (index % 512) * 0x1000,
{
    0x70_0042_0000 + (index / 512) as u64 * 0x208000 + (index % 512) as u64 * 0x1000
}

/// The pages of different indices do not overlap, and those of one buffer are contiguous.
pub proof fn lemma_operand_pages_disjoint(a: int, b: int)
    requires
        0 <= a < b,
    ensures
        ({
            let page = |i: int| 0x70_0042_0000 + (i / 512) * 0x208000 + (i % 512) * 0x1000;
            page(a) + 0x1000 <= page(b)
        }),
{
}

/// Stores an eight byte field.
pub fn put64(out: &mut [u8], offset: usize, value: u64)
    requires
        offset + 8 <= old(out)@.len(),
    ensures
        final(out)@ == bytes::overlay(old(out)@, seq![w64(offset, value)]),
{
    store(out, w64(offset, value));
}

/// Three independent cursor addresses followed by the ring address.
#[derive(Clone, Copy, Debug, PartialEq, Eq)]
pub struct Channel {
    pub state: [u64; 3],
    pub ring: u64,
}

/// The main configuration: the channels between host and firmware, and the regions they share.
pub struct MainConfig {
    pub hwdata: u64,
    pub repeated: u64,
    pub header: u64,
    pub channels: [Channel; 17],
    pub addresses: [u64; 5],
    pub regions: [u64; 6],
    pub unaligned: u64,
}

/// Ring offsets in the bundle of the twelve submission channels, by kind and priority.
pub open spec fn ring_offsets() -> Seq<u64> {
    seq![
        0x10240u64,
        0x16240,
        0x1c240,
        0xea40,
        0x14a40,
        0x1aa40,
        0xd240,
        0x13240,
        0x19240,
        0xba40,
        0x11a40,
        0x17a40,
    ]
}

/// Cursor offsets of the twelve submission channels.
pub open spec fn state_offsets() -> Seq<(u64, u64)> {
    seq![
        (0u64, 0u64),
        (0x40, 0x20),
        (0x80, 0x40),
        (0x10, 8),
        (0x50, 0x28),
        (0x90, 0x48),
        (0x20, 0x10),
        (0x60, 0x30),
        (0xa0, 0x50),
        (0x30, 0x18),
        (0x70, 0x38),
        (0xb0, 0x58),
    ]
}

/// The cursors and the ring of a channel of the bootstrap configuration.
pub open spec fn bootstrap_channel(bundle: u64, i: int) -> (Seq<u64>, u64) {
    if i < 12 {
        let a = (0xffff_fc20_0002_8000 + state_offsets()[i].0) as u64;
        (
            seq![a, (a + 8) as u64, (0xffff_fc20_0002_0000 + state_offsets()[i].1) as u64],
            (bundle + ring_offsets()[i]) as u64,
        )
    } else if i == 12 {
        (
            seq![0xffff_fc20_0002_80c0u64, 0xffff_fc20_0002_80c8, 0xffff_fc20_0002_0060],
            (BUNDLE_ADDRESS + 0x1df00) as u64,
        )
    } else if i == 13 {
        (
            seq![0xffff_fc20_0003_f1c0u64, 0xffff_fc20_0003_f440, 0xffff_fc20_0003_f200],
            0xffff_fc20_0004_3c40,
        )
    } else if i == 14 {
        (
            seq![0xffff_fc20_0003_f3c0u64, 0xffff_fc20_000e_5c40, 0xffff_fc20_0003_f400],
            0xffff_fc20_000e_ec40,
        )
    } else if i == 15 {
        (seq![0xffff_fc20_0006_c440u64, 0, 0], 0)
    } else {
        (seq![0u64, 0, 0], 0)
    }
}

impl Channel {
    /// A channel of the bootstrap configuration.
    fn bootstrap(bundle: u64, i: usize) -> (out: Self)
        requires
            bundle + 0x1c240 <= u64::MAX,
            i < 17,
        ensures
            out.state@ == bootstrap_channel(bundle, i as int).0,
            out.ring == bootstrap_channel(bundle, i as int).1,
    {
        if i < 12 {
            let rings: [u64; 12] = [
                0x10240,
                0x16240,
                0x1c240,
                0xea40,
                0x14a40,
                0x1aa40,
                0xd240,
                0x13240,
                0x19240,
                0xba40,
                0x11a40,
                0x17a40,
            ];
            let states: [(u64, u64); 12] = [
                (0, 0),
                (0x40, 0x20),
                (0x80, 0x40),
                (0x10, 8),
                (0x50, 0x28),
                (0x90, 0x48),
                (0x20, 0x10),
                (0x60, 0x30),
                (0xa0, 0x50),
                (0x30, 0x18),
                (0x70, 0x38),
                (0xb0, 0x58),
            ];
            assert(rings@ =~= ring_offsets());
            assert(states@ =~= state_offsets());
            assert(rings@[i as int] <= 0x1c240);
            assert(states@[i as int].0 <= 0xb0 && states@[i as int].1 <= 0x58);
            let a: u64 = 0xffff_fc20_0002_8000 + states[i].0;
            let state: [u64; 3] = [a, a + 8, 0xffff_fc20_0002_0000 + states[i].1];
            let out = Channel { state, ring: bundle + rings[i] };
            assert(out.state@ =~= bootstrap_channel(bundle, i as int).0);
            out
        } else {
            let (state, ring): ([u64; 3], u64) = match i {
                12 => (
                    [0xffff_fc20_0002_80c0, 0xffff_fc20_0002_80c8, 0xffff_fc20_0002_0060],
                    BUNDLE_ADDRESS + 0x1df00,
                ),
                13 => (
                    [0xffff_fc20_0003_f1c0, 0xffff_fc20_0003_f440, 0xffff_fc20_0003_f200],
                    0xffff_fc20_0004_3c40,
                ),
                14 => (
                    [0xffff_fc20_0003_f3c0, 0xffff_fc20_000e_5c40, 0xffff_fc20_0003_f400],
                    0xffff_fc20_000e_ec40,
                ),
                15 => ([0xffff_fc20_0006_c440, 0, 0], 0),
                _ => ([0, 0, 0], 0),
            };
            assert(state@ =~= bootstrap_channel(bundle, i as int).0);
            Channel { state, ring }
        }
    }
}

impl MainConfig {
    /// Whether this is the initial configuration around a descriptor bundle.
    pub open spec fn is_bootstrap(self, bundle: u64) -> bool {
        &&& self.hwdata == bundle
        &&& self.repeated == bundle + 0xb980
        &&& self.header == 0xffff_fc20_0002_0068
        &&& self.unaligned == bundle + 0x5380
        &&& self.addresses@ == seq![
            0u64,
            (bundle + 0x2680) as u64,
            (bundle + 0x32c0) as u64,
            (bundle + 0x4540) as u64,
            (bundle + 0xb900) as u64,
        ]
        &&& self.regions@ == seq![
            0xffff_fc20_c051_8000u64,
            0x70_0027_8000,
            0xffff_fc20_0012_8000,
            0x70_0028_0000,
            0xffff_fc20_0013_0000,
            0,
        ]
        &&& forall|i: int|
            0 <= i < 17 ==> (#[trigger] self.channels@[i]).state@ == bootstrap_channel(bundle, i).0
        &&& forall|i: int|
            0 <= i < 17 ==> (#[trigger] self.channels@[i]).ring == bootstrap_channel(bundle, i).1
    }

    /// The initial configuration around a descriptor bundle.
    pub fn bootstrap(bundle: u64) -> (out: Self)
        requires
            bundle + 0x1c240 <= u64::MAX,
        ensures
            out.is_bootstrap(bundle),
    {
        let channels: [Channel; 17] = [
            Channel::bootstrap(bundle, 0),
            Channel::bootstrap(bundle, 1),
            Channel::bootstrap(bundle, 2),
            Channel::bootstrap(bundle, 3),
            Channel::bootstrap(bundle, 4),
            Channel::bootstrap(bundle, 5),
            Channel::bootstrap(bundle, 6),
            Channel::bootstrap(bundle, 7),
            Channel::bootstrap(bundle, 8),
            Channel::bootstrap(bundle, 9),
            Channel::bootstrap(bundle, 10),
            Channel::bootstrap(bundle, 11),
            Channel::bootstrap(bundle, 12),
            Channel::bootstrap(bundle, 13),
            Channel::bootstrap(bundle, 14),
            Channel::bootstrap(bundle, 15),
            Channel::bootstrap(bundle, 16),
        ];
        Self {
            hwdata: bundle,
            repeated: bundle + 0xb980,
            header: 0xffff_fc20_0002_0068,
            channels,
            addresses: [
                0,
                bundle + 0x2680,
                bundle + 0x32c0,
                bundle + 0x4540,
                bundle + 0xb900,
            ],
            regions: [
                0xffff_fc20_c051_8000,
                0x70_0027_8000,
                0xffff_fc20_0012_8000,
                0x70_0028_0000,
                0xffff_fc20_0013_0000,
                0,
            ],
            unaligned: bundle + 0x5380,
        }
    }

    /// The fields of the channels up to one of them.
    pub open spec fn channel_fields(self, n: int) -> Seq<Field>
        decreases n,
    {
        if n <= 0 {
            Seq::empty()
        } else {
            let base = 0x20 + (n - 1) * 0x20;
            let channel = self.channels@[n - 1];
            self.channel_fields(n - 1) + seq![
                w64(base as usize, channel.state@[0]),
                w64((base + 8) as usize, channel.state@[1]),
                w64((base + 16) as usize, channel.state@[2]),
                w64((base + 24) as usize, channel.ring),
            ]
        }
    }

    /// The fields before the channels.
    pub open spec fn head_fields(self) -> Seq<Field> {
        seq![
            w64(0, self.hwdata),
            w64(8, self.repeated),
            w64(16, self.repeated),
            w64(24, self.header),
            w64(0x469, self.unaligned),
        ]
    }

    /// The bytes of the configuration.
    pub open spec fn image(self) -> Seq<u8> {
        bytes::overlay(
            bytes::overlay(
                bytes::image(0x500, self.head_fields()),
                self.channel_fields(17),
            ),
            self.tail_fields(),
        )
    }

    /// The fields behind the channels.
    pub open spec fn tail_fields(self) -> Seq<Field> {
        seq![
            w64(0x24c, self.addresses@[0]),
            w64(0x254, self.addresses@[1]),
            w64(0x25c, self.addresses@[2]),
            w64(0x264, self.addresses@[3]),
            w64(0x26c, self.addresses@[4]),
            w64(0x2c8, self.regions@[0]),
            w64(0x2d0, self.regions@[1]),
            w64(0x2d8, self.regions@[2]),
            w64(0x2e0, self.regions@[3]),
            w64(0x2e8, self.regions@[4]),
            w64(0x2f0, self.regions@[5]),
            w32(0x2f8, 4),
            w32(0x3d8, 0xff),
            w32(0x4c0, 0x16),
        ]
    }

    /// The main configuration as the firmware reads it.
    pub fn encode(&self) -> (out: [u8; 0x500])
        ensures
            out@ == self.image(),
    {
        let head = [
            w64(0, self.hwdata),
            w64(8, self.repeated),
            w64(16, self.repeated),
            w64(24, self.header),
            w64(0x469, self.unaligned),
        ];
        assert(head@ =~= self.head_fields());
        let mut out: [u8; 0x500] = encode::<0x500>(&head);
        let mut channels: Vec<Field> = Vec::new();
        let mut i: usize = 0;
        while i < 17
            invariant
                i <= 17,
                channels@ == self.channel_fields(i as int),
                bytes::all_fit(channels@, 0x500),
            decreases 17 - i,
        {
            let base: usize = 0x20 + i * 0x20;
            let channel: Channel = self.channels[i];
            channels.push(w64(base, channel.state[0]));
            channels.push(w64(base + 8, channel.state[1]));
            channels.push(w64(base + 16, channel.state[2]));
            channels.push(w64(base + 24, channel.ring));
            i += 1;
            assert(channels@ =~= self.channel_fields(i as int));
        }
        bytes::fill(&mut out, &channels);
        let tail = [
            w64(0x24c, self.addresses[0]),
            w64(0x254, self.addresses[1]),
            w64(0x25c, self.addresses[2]),
            w64(0x264, self.addresses[3]),
            w64(0x26c, self.addresses[4]),
            w64(0x2c8, self.regions[0]),
            w64(0x2d0, self.regions[1]),
            w64(0x2d8, self.regions[2]),
            w64(0x2e0, self.regions[3]),
            w64(0x2e8, self.regions[4]),
            w64(0x2f0, self.regions[5]),
            w32(0x2f8, 4),
            w32(0x3d8, 0xff),
            w32(0x4c0, 0x16),
        ];
        assert(tail@ =~= self.tail_fields());
        bytes::fill(&mut out, &tail);
        out
    }
}

/// The regions that the root descriptor names.
#[derive(Clone, Copy, Debug, PartialEq, Eq, Structural)]
pub struct RootPointers {
    pub region_a: u64,
    pub main_config: u64,
    pub region_c: u64,
    pub status_a: u64,
    pub status_b: u64,
    pub extra_0: u64,
    pub extra_1: u64,
}

impl RootPointers {
    /// The regions of the initial firmware namespace.
    pub open spec fn initial() -> Self {
        RootPointers {
            region_a: 0xffff_fc20_0010_8000,
            main_config: 0xffff_fc20_c04f_5a40,
            region_c: 0xffff_fc20_000f_8000,
            status_a: 0xffff_fc20_0003_f180,
            status_b: 0xffff_fc20_0003_0000,
            extra_0: 0xffff_fc20_0003_eb00,
            extra_1: 0xffff_fc20_000f_3440,
        }
    }

    /// The initial firmware namespace. Client addresses are allocated separately.
    pub fn bootstrap() -> (out: Self)
        ensures
            out == Self::initial(),
    {
        Self {
            region_a: 0xffff_fc20_0010_8000,
            main_config: BUNDLE_ADDRESS + MAIN_OFFSET as u64,
            region_c: 0xffff_fc20_000f_8000,
            status_a: 0xffff_fc20_0003_f180,
            status_b: 0xffff_fc20_0003_0000,
            extra_0: 0xffff_fc20_0003_eb00,
            extra_1: 0xffff_fc20_000f_3440,
        }
    }

    /// The fields of the root descriptor: a magic number, the regions, and the page table geometry
    /// level by level.
    pub open spec fn fields(self) -> Seq<Field> {
        seq![
            w16(0, 0x04b8),
            w16(2, 0x8392),
            w16(4, 0xc357),
            w16(6, 0x0c89),
            w64(0x08, self.region_a),
            w64(0x18, self.main_config),
            w64(0x20, self.region_c),
            w64(0xa8, self.status_a),
            w64(0xb0, self.status_b),
            w64(0xb8, self.extra_0),
            w64(0xc0, self.extra_1),
            w32(0x2c, 1),
            w16(0x30, 0x4000),
            w8(0x32, 14),
            w8(0x33, 3),
            w8(0x34, 8),
            w8(0x35, 14),
            w8(0x36, 14),
            w8(0x37, 36),
            w16(0x38, 64),
            w16(0x3a, 0x4000),
            w64(0x3c, 1),
            w64(0x44, 0x0000_03ff_ffff_c000),
            w64(0x4c, 0x0000_03f0_0000_0000),
            w8(0x54, 8),
            w8(0x55, 14),
            w8(0x56, 14),
            w8(0x57, 25),
            w16(0x58, 2048),
            w16(0x5a, 0x4000),
            w64(0x5c, 1),
            w64(0x64, 0x0000_03ff_ffff_c000),
            w64(0x6c, 0x0000_000f_fe00_0000),
            w8(0x74, 8),
            w8(0x75, 14),
            w8(0x76, 14),
            w8(0x77, 14),
            w16(0x78, 2048),
            w16(0x7a, 0x4000),
            w64(0x7c, 1),
            w64(0x84, 0x0000_03ff_ffff_c000),
            w64(0x8c, 0x0000_0000_01ff_c000),
        ]
    }

    /// The root descriptor as the firmware reads it.
    pub fn encode(&self) -> (out: [u8; 0xc8])
        ensures
            out@ == bytes::image(0xc8, self.fields()),
    {
        let fields = [
            w16(0, 0x04b8),
            w16(2, 0x8392),
            w16(4, 0xc357),
            w16(6, 0x0c89),
            w64(0x08, self.region_a),
            w64(0x18, self.main_config),
            w64(0x20, self.region_c),
            w64(0xa8, self.status_a),
            w64(0xb0, self.status_b),
            w64(0xb8, self.extra_0),
            w64(0xc0, self.extra_1),
            w32(0x2c, 1),
            w16(0x30, 0x4000),
            w8(0x32, 14),
            w8(0x33, 3),
            w8(0x34, 8),
            w8(0x35, 14),
            w8(0x36, 14),
            w8(0x37, 36),
            w16(0x38, 64),
            w16(0x3a, 0x4000),
            w64(0x3c, 1),
            w64(0x44, 0x0000_03ff_ffff_c000),
            w64(0x4c, 0x0000_03f0_0000_0000),
            w8(0x54, 8),
            w8(0x55, 14),
            w8(0x56, 14),
            w8(0x57, 25),
            w16(0x58, 2048),
            w16(0x5a, 0x4000),
            w64(0x5c, 1),
            w64(0x64, 0x0000_03ff_ffff_c000),
            w64(0x6c, 0x0000_000f_fe00_0000),
            w8(0x74, 8),
            w8(0x75, 14),
            w8(0x76, 14),
            w8(0x77, 14),
            w16(0x78, 2048),
            w16(0x7a, 0x4000),
            w64(0x7c, 1),
            w64(0x84, 0x0000_03ff_ffff_c000),
            w64(0x8c, 0x0000_0000_01ff_c000),
        ];
        assert(fields@ =~= self.fields());
        encode::<0xc8>(&fields)
    }
}

} // verus!
