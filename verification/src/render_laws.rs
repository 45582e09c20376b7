//! What the objects of a render say to those who read them.
use crate::bytes;
use crate::bytes::Field;
use crate::render;
use crate::render::{Addresses, Parameters};
use crate::submit;
use vstd::prelude::*;

verus! {

/// The command that starts tiling names the registers of its work, the buffer of the client, its queue, its
/// context and its own identity.
pub proof fn lemma_tiling_start(a: Addresses)
    requires
        a.tiling_work + 0x928 <= u64::MAX,
        a.tiling_microsequence + 0x190 <= u64::MAX,
    ensures
        ({
            let m = bytes::image(0x300, a.tiling_microsequence_fields());
            &&& bytes::u32_in(m, 0x0) == 5
            &&& bytes::u64_in(m, 0x14) == a.tiling_work + 0x40
            &&& bytes::u64_in(m, 0x1c) == a.buffer_manager
            &&& bytes::u64_in(m, 0x24) == a.buffer_thing
            &&& bytes::u64_in(m, 0x2c) == a.tiling_stats
            &&& bytes::u64_in(m, 0x34) == a.tiling_queue
            &&& bytes::u64_in(m, 0x3c) == a.tiling_work + 0x85c
            &&& bytes::u32_in(m, 0x44) == a.context_id % 0x1_0000_0000
            &&& bytes::u32_in(m, 0x48) == a.tiling_counter % 0x1_0000_0000
            &&& bytes::u64_in(m, 0x50) == a.buffer_manager_slot
            &&& bytes::u64_in(m, 0x64) == a.tiling_work + 0x784
            &&& bytes::u64_in(m, 0x6c) == a.tiling_work + 0x8a8
            &&& bytes::u32_in(m, 0x7c) == a.tiling_uuid % 0x1_0000_0000
        }),
{
    let fields = a.tiling_microsequence_fields();
    let base = bytes::zeros(0x300);
    assert(fields.len() == 52);
    reveal_with_fuel(bytes::held, 12);
    reveal_with_fuel(bytes::clear_of, 14);
    assert(bytes::clear_of(fields, 10, 22, 0, 0x58));
    assert(bytes::clear_of(fields, 10, 34, 0, 0x58));
    assert(bytes::clear_of(fields, 10, 46, 0, 0x58));
    assert(bytes::clear_of(fields, 10, 52, 0, 0x58));
    bytes::lemma_clear_of(fields, 10, 52, 0, 0x58);
    bytes::lemma_held_u32(base, fields, 0x0);
    bytes::lemma_held_u64(base, fields, 0x14);
    bytes::lemma_held_u64(base, fields, 0x1c);
    bytes::lemma_held_u64(base, fields, 0x24);
    bytes::lemma_held_u64(base, fields, 0x2c);
    bytes::lemma_held_u64(base, fields, 0x34);
    bytes::lemma_held_u64(base, fields, 0x3c);
    bytes::lemma_held_u32(base, fields, 0x44);
    bytes::lemma_held_u32(base, fields, 0x48);
    bytes::lemma_held_u64(base, fields, 0x50);
    assert(bytes::clear_of(fields, 13, 25, 0x64, 0x80));
    assert(bytes::clear_of(fields, 13, 37, 0x64, 0x80));
    assert(bytes::clear_of(fields, 13, 49, 0x64, 0x80));
    assert(bytes::clear_of(fields, 13, 52, 0x64, 0x80));
    bytes::lemma_clear_of(fields, 13, 52, 0x64, 0x80);
    bytes::lemma_held_u64(base, fields, 0x64);
    bytes::lemma_held_u64(base, fields, 0x6c);
    bytes::lemma_held_u32(base, fields, 0x7c);
}

/// Tiling uses the support block of the client and its own status page, and raises its own event.
pub proof fn lemma_tiling_support(a: Addresses)
    requires
        a.tiling_work + 0x928 <= u64::MAX,
        a.tiling_microsequence + 0x190 <= u64::MAX,
    ensures
        ({
            let m = bytes::image(0x300, a.tiling_microsequence_fields());
            &&& bytes::u64_in(m, 0x190) == a.support
            &&& bytes::u64_in(m, 0x1a8) == a.tiling_status_page
            &&& bytes::u64_in(m, 0x1b8) == 1
            &&& bytes::u32_in(m, 0x1c0) == a.tiling_event % 0x1_0000_0000
        }),
{
    let fields = a.tiling_microsequence_fields();
    let base = bytes::zeros(0x300);
    assert(fields.len() == 52);
    reveal_with_fuel(bytes::held, 12);
    reveal_with_fuel(bytes::clear_of, 14);
    assert(bytes::clear_of(fields, 17, 29, 0x190, 0x1c4));
    assert(bytes::clear_of(fields, 17, 41, 0x190, 0x1c4));
    assert(bytes::clear_of(fields, 17, 52, 0x190, 0x1c4));
    bytes::lemma_clear_of(fields, 17, 52, 0x190, 0x1c4);
    bytes::lemma_held_u64(base, fields, 0x190);
    bytes::lemma_held_u64(base, fields, 0x1a8);
    bytes::lemma_held_u64(base, fields, 0x1b8);
    bytes::lemma_held_u32(base, fields, 0x1c0);
}

/// The first timestamp command of tiling goes to the work, and to the client where it asks for times.
pub proof fn lemma_tiling_first_timestamp(a: Addresses)
    requires
        a.tiling_work + 0x928 <= u64::MAX,
        a.tiling_microsequence + 0x190 <= u64::MAX,
    ensures
        ({
            let m = bytes::image(0x300, a.tiling_microsequence_fields());
            &&& bytes::u32_in(m, 0x1cc) == 0x80000003
            &&& bytes::u64_in(m, 0x1d0) == a.tiling_work + 0x8c0
            &&& bytes::u64_in(m, 0x1d8) == a.tiling_work + 0x8c8
            &&& bytes::u64_in(m, 0x1e0) == a.tiling_work + 0x8c8
            &&& bytes::u64_in(m, 0x1e8) == a.tiling_queue
            &&& bytes::u64_in(m, 0x1f0) == (if a.tiling_user_timestamp_start != 0 || a.tiling_user_timestamp_end != 0 { a.tiling_work + 0x8d8 } else { 0 })
            &&& bytes::u64_in(m, 0x1f8) == a.tiling_work + 0x928
            &&& bytes::u64_in(m, 0x200) == a.tiling_work + 0x83c
            &&& bytes::u32_in(m, 0x210) == a.tiling_uuid % 0x1_0000_0000
        }),
{
    let fields = a.tiling_microsequence_fields();
    let base = bytes::zeros(0x300);
    assert(fields.len() == 52);
    reveal_with_fuel(bytes::held, 12);
    reveal_with_fuel(bytes::clear_of, 14);
    assert(bytes::clear_of(fields, 26, 38, 0x1cc, 0x214));
    assert(bytes::clear_of(fields, 26, 50, 0x1cc, 0x214));
    assert(bytes::clear_of(fields, 26, 52, 0x1cc, 0x214));
    bytes::lemma_clear_of(fields, 26, 52, 0x1cc, 0x214);
    bytes::lemma_held_u32(base, fields, 0x1cc);
    bytes::lemma_held_u64(base, fields, 0x1d0);
    bytes::lemma_held_u64(base, fields, 0x1d8);
    bytes::lemma_held_u64(base, fields, 0x1e0);
    bytes::lemma_held_u64(base, fields, 0x1e8);
    bytes::lemma_held_u64(base, fields, 0x1f0);
    bytes::lemma_held_u64(base, fields, 0x1f8);
    bytes::lemma_held_u64(base, fields, 0x200);
    bytes::lemma_held_u32(base, fields, 0x210);
}

/// The second timestamp command of tiling differs from the first in its mark, and stores behind it.
pub proof fn lemma_tiling_second_timestamp(a: Addresses)
    requires
        a.tiling_work + 0x928 <= u64::MAX,
        a.tiling_microsequence + 0x190 <= u64::MAX,
    ensures
        ({
            let m = bytes::image(0x300, a.tiling_microsequence_fields());
            &&& bytes::u32_in(m, 0x218) == 1
            &&& bytes::u32_in(m, 0x21c) == 3
            &&& bytes::u64_in(m, 0x220) == a.tiling_work + 0x8c0
            &&& bytes::u64_in(m, 0x228) == a.tiling_work + 0x8c8
            &&& bytes::u64_in(m, 0x230) == a.tiling_work + 0x8d0
            &&& bytes::u64_in(m, 0x238) == a.tiling_queue
            &&& bytes::u64_in(m, 0x240) == (if a.tiling_user_timestamp_start != 0 || a.tiling_user_timestamp_end != 0 { a.tiling_work + 0x8d8 } else { 0 })
            &&& bytes::u64_in(m, 0x248) == a.tiling_work + 0x928
            &&& bytes::u64_in(m, 0x250) == a.tiling_work + 0x83c
            &&& bytes::u32_in(m, 0x260) == a.tiling_uuid % 0x1_0000_0000
        }),
{
    let fields = a.tiling_microsequence_fields();
    let base = bytes::zeros(0x300);
    assert(fields.len() == 52);
    reveal_with_fuel(bytes::held, 12);
    reveal_with_fuel(bytes::clear_of, 14);
    assert(bytes::clear_of(fields, 36, 48, 0x218, 0x264));
    assert(bytes::clear_of(fields, 36, 52, 0x218, 0x264));
    bytes::lemma_clear_of(fields, 36, 52, 0x218, 0x264);
    bytes::lemma_held_u32(base, fields, 0x218);
    bytes::lemma_held_u32(base, fields, 0x21c);
    bytes::lemma_held_u64(base, fields, 0x220);
    bytes::lemma_held_u64(base, fields, 0x228);
    bytes::lemma_held_u64(base, fields, 0x230);
    bytes::lemma_held_u64(base, fields, 0x238);
    bytes::lemma_held_u64(base, fields, 0x240);
    bytes::lemma_held_u64(base, fields, 0x248);
    bytes::lemma_held_u64(base, fields, 0x250);
    bytes::lemma_held_u32(base, fields, 0x260);
}

/// The command that finishes tiling stores the stamp of tiling where its completion is waited for.
pub proof fn lemma_tiling_finish(a: Addresses)
    requires
        a.tiling_work + 0x928 <= u64::MAX,
        a.tiling_microsequence + 0x190 <= u64::MAX,
    ensures
        ({
            let m = bytes::image(0x300, a.tiling_microsequence_fields());
            &&& bytes::u32_in(m, 0x268) == 6
            &&& bytes::u64_in(m, 0x26c) == a.buffer_thing
            &&& bytes::u64_in(m, 0x274) == a.buffer_manager
            &&& bytes::u64_in(m, 0x27c) == a.tiling_stats
            &&& bytes::u64_in(m, 0x284) == a.tiling_queue
            &&& bytes::u64_in(m, 0x28c) == a.tiling_work + 0x85c
            &&& bytes::u32_in(m, 0x294) == a.context_id % 0x1_0000_0000
            &&& bytes::u64_in(m, 0x29c) == a.tiling_work + 0x784
            &&& bytes::u32_in(m, 0x2a8) == a.tiling_uuid % 0x1_0000_0000
            &&& bytes::u64_in(m, 0x2b0) == a.tiling_firmware_stamp
            &&& bytes::u32_in(m, 0x2b8) == a.tiling_stamp % 0x1_0000_0000
        }),
{
    let fields = a.tiling_microsequence_fields();
    let base = bytes::zeros(0x300);
    assert(fields.len() == 52);
    reveal_with_fuel(bytes::held, 12);
    reveal_with_fuel(bytes::clear_of, 14);
    assert(bytes::clear_of(fields, 46, 52, 0x268, 0x2b8));
    bytes::lemma_clear_of(fields, 46, 52, 0x268, 0x2b8);
    bytes::lemma_held_u32(base, fields, 0x268);
    bytes::lemma_held_u64(base, fields, 0x26c);
    bytes::lemma_held_u64(base, fields, 0x274);
    bytes::lemma_held_u64(base, fields, 0x27c);
    bytes::lemma_held_u64(base, fields, 0x284);
    bytes::lemma_held_u64(base, fields, 0x28c);
    bytes::lemma_held_u32(base, fields, 0x294);
    bytes::lemma_held_u64(base, fields, 0x29c);
    bytes::lemma_held_u32(base, fields, 0x2a8);
    bytes::lemma_held_u64(base, fields, 0x2b0);
    assert(bytes::clear_of(fields, 47, 52, 0x2b8, 0x2bc));
    bytes::lemma_clear_of(fields, 47, 52, 0x2b8, 0x2bc);
    bytes::lemma_held_u32(base, fields, 0x2b8);
}

/// The end of a tiling microsequence leads back to its start command, and closes the work.
pub proof fn lemma_tiling_close(a: Addresses)
    requires
        a.tiling_work + 0x928 <= u64::MAX,
        a.tiling_microsequence + 0x190 <= u64::MAX,
    ensures
        ({
            let m = bytes::image(0x300, a.tiling_microsequence_fields());
            &&& bytes::u64_in(m, 0x2e0) == a.tiling_microsequence + 0x190
            &&& bytes::u32_in(m, 0x2e8) == 0xfffffd98
            &&& bytes::u64_in(m, 0x2ed) == a.tiling_work + 0x918
            &&& bytes::u32_in(m, 0x2fc) == 0x40000002
        }),
{
    let fields = a.tiling_microsequence_fields();
    let base = bytes::zeros(0x300);
    assert(fields.len() == 52);
    reveal_with_fuel(bytes::held, 12);
    reveal_with_fuel(bytes::clear_of, 14);
    assert(bytes::clear_of(fields, 50, 52, 0x2e0, 0x2f5));
    bytes::lemma_clear_of(fields, 50, 52, 0x2e0, 0x2f5);
    bytes::lemma_held_u64(base, fields, 0x2e0);
    bytes::lemma_held_u32(base, fields, 0x2e8);
    bytes::lemma_held_u64(base, fields, 0x2ed);
    bytes::lemma_held_u32(base, fields, 0x2fc);
}

/// What no command of a tiling microsequence uses is zero.
pub proof fn lemma_tiling_microsequence_rest(a: Addresses, i: int)
    requires
        0 <= i < 0x300,
        !(0 <= i < 4),
        !(0x14 <= i < 0x4c),
        !(0x50 <= i < 0x58),
        !(0x64 <= i < 0x74),
        !(0x7c <= i < 0x80),
        !(0x190 <= i < 0x198),
        !(0x1a8 <= i < 0x1b0),
        !(0x1b8 <= i < 0x1c4),
        !(0x1cc <= i < 0x208),
        !(0x210 <= i < 0x214),
        !(0x218 <= i < 0x258),
        !(0x260 <= i < 0x264),
        !(0x268 <= i < 0x298),
        !(0x29c <= i < 0x2a4),
        !(0x2a8 <= i < 0x2ac),
        !(0x2b0 <= i < 0x2bc),
        !(0x2e0 <= i < 0x2ec),
        !(0x2ed <= i < 0x300),
    ensures
        bytes::image(0x300, a.tiling_microsequence_fields())[i] == 0,
{
    let fields = a.tiling_microsequence_fields();
    assert(fields.len() == 52);
    reveal_with_fuel(bytes::touched, 14);
    assert(!bytes::touched(fields, 12, i));
    assert(!bytes::touched(fields, 24, i));
    assert(!bytes::touched(fields, 36, i));
    assert(!bytes::touched(fields, 48, i));
    assert(!bytes::touched(fields, 52, i));
    bytes::lemma_untouched(bytes::zeros(0x300), fields, i);
}

/// The command that starts shading names the registers of its work, the buffer of the client, its queue, its
/// context and its own identity.
pub proof fn lemma_fragment_start(a: Addresses)
    requires
        a.fragment_work + 0xc70 <= u64::MAX,
        a.fragment_microsequence + 0x1b0 <= u64::MAX,
        a.buffer_thing + 0x54 <= u64::MAX,
    ensures
        ({
            let m = bytes::image(0x380, a.fragment_microsequence_fields());
            &&& bytes::u32_in(m, 0x0) == 7
            &&& bytes::u64_in(m, 0x14) == a.fragment_work + 0x80
            &&& bytes::u64_in(m, 0x1c) == a.buffer_thing
            &&& bytes::u64_in(m, 0x24) == a.fragment_stats
            &&& bytes::u64_in(m, 0x2c) == a.fragment_work + 0xb70
            &&& bytes::u64_in(m, 0x34) == a.buffer_thing + 0x54
            &&& bytes::u64_in(m, 0x3c) == a.fragment_work + 0xbb0
            &&& bytes::u64_in(m, 0x44) == a.fragment_work + 0xbb4
            &&& bytes::u64_in(m, 0x4c) == a.fragment_queue
            &&& bytes::u64_in(m, 0x54) == a.fragment_work
            &&& bytes::u32_in(m, 0x5c) == a.context_id % 0x1_0000_0000
            &&& bytes::u32_in(m, 0x60) == a.tiling_counter % 0x1_0000_0000
            &&& bytes::u64_in(m, 0x68) == a.buffer_manager_slot
            &&& bytes::u64_in(m, 0x7c) == a.fragment_work + 0xa58
            &&& bytes::u64_in(m, 0x84) == a.fragment_work + 0xbf0
            &&& bytes::u32_in(m, 0xa0) == a.fragment_uuid % 0x1_0000_0000
        }),
{
    let fields = a.fragment_microsequence_fields();
    let base = bytes::zeros(0x380);
    assert(fields.len() == 59);
    reveal_with_fuel(bytes::held, 12);
    reveal_with_fuel(bytes::clear_of, 14);
    assert(bytes::clear_of(fields, 10, 22, 0, 0x5c));
    assert(bytes::clear_of(fields, 10, 34, 0, 0x5c));
    assert(bytes::clear_of(fields, 10, 46, 0, 0x5c));
    assert(bytes::clear_of(fields, 10, 58, 0, 0x5c));
    assert(bytes::clear_of(fields, 10, 59, 0, 0x5c));
    bytes::lemma_clear_of(fields, 10, 59, 0, 0x5c);
    bytes::lemma_held_u32(base, fields, 0x0);
    bytes::lemma_held_u64(base, fields, 0x14);
    bytes::lemma_held_u64(base, fields, 0x1c);
    bytes::lemma_held_u64(base, fields, 0x24);
    bytes::lemma_held_u64(base, fields, 0x2c);
    bytes::lemma_held_u64(base, fields, 0x34);
    bytes::lemma_held_u64(base, fields, 0x3c);
    bytes::lemma_held_u64(base, fields, 0x44);
    bytes::lemma_held_u64(base, fields, 0x4c);
    bytes::lemma_held_u64(base, fields, 0x54);
    assert(bytes::clear_of(fields, 16, 28, 0x5c, 0xa4));
    assert(bytes::clear_of(fields, 16, 40, 0x5c, 0xa4));
    assert(bytes::clear_of(fields, 16, 52, 0x5c, 0xa4));
    assert(bytes::clear_of(fields, 16, 59, 0x5c, 0xa4));
    bytes::lemma_clear_of(fields, 16, 59, 0x5c, 0xa4);
    bytes::lemma_held_u32(base, fields, 0x5c);
    bytes::lemma_held_u32(base, fields, 0x60);
    bytes::lemma_held_u64(base, fields, 0x68);
    bytes::lemma_held_u64(base, fields, 0x7c);
    bytes::lemma_held_u64(base, fields, 0x84);
    bytes::lemma_held_u32(base, fields, 0xa0);
}

/// Shading uses the support block of the client and its own status page, and raises its own event.
pub proof fn lemma_fragment_support(a: Addresses)
    requires
        a.fragment_work + 0xc70 <= u64::MAX,
        a.fragment_microsequence + 0x1b0 <= u64::MAX,
        a.buffer_thing + 0x54 <= u64::MAX,
    ensures
        ({
            let m = bytes::image(0x380, a.fragment_microsequence_fields());
            &&& bytes::u64_in(m, 0x1b0) == a.support
            &&& bytes::u64_in(m, 0x1c8) == a.fragment_status_page
            &&& bytes::u32_in(m, 0x1e0) == a.fragment_event % 0x1_0000_0000
            &&& bytes::u32_in(m, 0x1e4) == 1
        }),
{
    let fields = a.fragment_microsequence_fields();
    let base = bytes::zeros(0x380);
    assert(fields.len() == 59);
    reveal_with_fuel(bytes::held, 12);
    reveal_with_fuel(bytes::clear_of, 14);
    assert(bytes::clear_of(fields, 20, 32, 0x1b0, 0x1e8));
    assert(bytes::clear_of(fields, 20, 44, 0x1b0, 0x1e8));
    assert(bytes::clear_of(fields, 20, 56, 0x1b0, 0x1e8));
    assert(bytes::clear_of(fields, 20, 59, 0x1b0, 0x1e8));
    bytes::lemma_clear_of(fields, 20, 59, 0x1b0, 0x1e8);
    bytes::lemma_held_u64(base, fields, 0x1b0);
    bytes::lemma_held_u64(base, fields, 0x1c8);
    bytes::lemma_held_u32(base, fields, 0x1e0);
    bytes::lemma_held_u32(base, fields, 0x1e4);
}

/// The first timestamp command of shading goes to the work, and to the client where it asks for times.
pub proof fn lemma_fragment_first_timestamp(a: Addresses)
    requires
        a.fragment_work + 0xc70 <= u64::MAX,
        a.fragment_microsequence + 0x1b0 <= u64::MAX,
        a.buffer_thing + 0x54 <= u64::MAX,
    ensures
        ({
            let m = bytes::image(0x380, a.fragment_microsequence_fields());
            &&& bytes::u32_in(m, 0x1ec) == 0x80000003
            &&& bytes::u64_in(m, 0x1f0) == a.fragment_work + 0xc08
            &&& bytes::u64_in(m, 0x1f8) == a.fragment_work + 0xc10
            &&& bytes::u64_in(m, 0x200) == a.fragment_work + 0xc10
            &&& bytes::u64_in(m, 0x208) == a.fragment_queue
            &&& bytes::u64_in(m, 0x210) == (if a.fragment_user_timestamp_start != 0 || a.fragment_user_timestamp_end != 0 { a.fragment_work + 0xc20 } else { 0 })
            &&& bytes::u64_in(m, 0x218) == a.fragment_work + 0xc70
            &&& bytes::u64_in(m, 0x220) == a.fragment_work + 0xb84
            &&& bytes::u32_in(m, 0x230) == a.fragment_uuid % 0x1_0000_0000
        }),
{
    let fields = a.fragment_microsequence_fields();
    let base = bytes::zeros(0x380);
    assert(fields.len() == 59);
    reveal_with_fuel(bytes::held, 12);
    reveal_with_fuel(bytes::clear_of, 14);
    assert(bytes::clear_of(fields, 29, 41, 0x1ec, 0x234));
    assert(bytes::clear_of(fields, 29, 53, 0x1ec, 0x234));
    assert(bytes::clear_of(fields, 29, 59, 0x1ec, 0x234));
    bytes::lemma_clear_of(fields, 29, 59, 0x1ec, 0x234);
    bytes::lemma_held_u32(base, fields, 0x1ec);
    bytes::lemma_held_u64(base, fields, 0x1f0);
    bytes::lemma_held_u64(base, fields, 0x1f8);
    bytes::lemma_held_u64(base, fields, 0x200);
    bytes::lemma_held_u64(base, fields, 0x208);
    bytes::lemma_held_u64(base, fields, 0x210);
    bytes::lemma_held_u64(base, fields, 0x218);
    bytes::lemma_held_u64(base, fields, 0x220);
    bytes::lemma_held_u32(base, fields, 0x230);
}

/// The second timestamp command of shading differs from the first in its mark, and stores behind it.
pub proof fn lemma_fragment_second_timestamp(a: Addresses)
    requires
        a.fragment_work + 0xc70 <= u64::MAX,
        a.fragment_microsequence + 0x1b0 <= u64::MAX,
        a.buffer_thing + 0x54 <= u64::MAX,
    ensures
        ({
            let m = bytes::image(0x380, a.fragment_microsequence_fields());
            &&& bytes::u32_in(m, 0x238) == 1
            &&& bytes::u32_in(m, 0x23c) == 3
            &&& bytes::u64_in(m, 0x240) == a.fragment_work + 0xc08
            &&& bytes::u64_in(m, 0x248) == a.fragment_work + 0xc10
            &&& bytes::u64_in(m, 0x250) == a.fragment_work + 0xc18
            &&& bytes::u64_in(m, 0x258) == a.fragment_queue
            &&& bytes::u64_in(m, 0x260) == (if a.fragment_user_timestamp_start != 0 || a.fragment_user_timestamp_end != 0 { a.fragment_work + 0xc20 } else { 0 })
            &&& bytes::u64_in(m, 0x268) == a.fragment_work + 0xc70
            &&& bytes::u64_in(m, 0x270) == a.fragment_work + 0xb84
            &&& bytes::u32_in(m, 0x280) == a.fragment_uuid % 0x1_0000_0000
        }),
{
    let fields = a.fragment_microsequence_fields();
    let base = bytes::zeros(0x380);
    assert(fields.len() == 59);
    reveal_with_fuel(bytes::held, 12);
    reveal_with_fuel(bytes::clear_of, 14);
    assert(bytes::clear_of(fields, 39, 51, 0x238, 0x284));
    assert(bytes::clear_of(fields, 39, 59, 0x238, 0x284));
    bytes::lemma_clear_of(fields, 39, 59, 0x238, 0x284);
    bytes::lemma_held_u32(base, fields, 0x238);
    bytes::lemma_held_u32(base, fields, 0x23c);
    bytes::lemma_held_u64(base, fields, 0x240);
    bytes::lemma_held_u64(base, fields, 0x248);
    bytes::lemma_held_u64(base, fields, 0x250);
    bytes::lemma_held_u64(base, fields, 0x258);
    bytes::lemma_held_u64(base, fields, 0x260);
    bytes::lemma_held_u64(base, fields, 0x268);
    bytes::lemma_held_u64(base, fields, 0x270);
    bytes::lemma_held_u32(base, fields, 0x280);
}

/// The command that finishes shading stores the stamp of shading where its completion is waited for.
pub proof fn lemma_fragment_finish(a: Addresses)
    requires
        a.fragment_work + 0xc70 <= u64::MAX,
        a.fragment_microsequence + 0x1b0 <= u64::MAX,
        a.buffer_thing + 0x54 <= u64::MAX,
    ensures
        ({
            let m = bytes::image(0x380, a.fragment_microsequence_fields());
            &&& bytes::u32_in(m, 0x288) == 8
            &&& bytes::u32_in(m, 0x28c) == a.fragment_uuid % 0x1_0000_0000
            &&& bytes::u64_in(m, 0x294) == a.fragment_firmware_stamp
            &&& bytes::u32_in(m, 0x29c) == a.fragment_stamp % 0x1_0000_0000
            &&& bytes::u64_in(m, 0x2a4) == a.buffer_thing
            &&& bytes::u64_in(m, 0x2ac) == a.buffer_manager
            &&& bytes::u64_in(m, 0x2b8) == a.fragment_stats
            &&& bytes::u64_in(m, 0x2c0) == a.fragment_work + 0xbb0
            &&& bytes::u64_in(m, 0x2c8) == a.fragment_work + 0xbb4
            &&& bytes::u64_in(m, 0x2d0) == a.fragment_work + 0xb70
            &&& bytes::u64_in(m, 0x2d8) == a.fragment_queue
            &&& bytes::u64_in(m, 0x2e0) == a.fragment_work
            &&& bytes::u32_in(m, 0x2e8) == a.context_id % 0x1_0000_0000
            &&& bytes::u64_in(m, 0x2ec) == a.fragment_work + 0xa58
        }),
{
    let fields = a.fragment_microsequence_fields();
    let base = bytes::zeros(0x380);
    assert(fields.len() == 59);
    reveal_with_fuel(bytes::held, 12);
    reveal_with_fuel(bytes::clear_of, 14);
    assert(bytes::clear_of(fields, 45, 57, 0x288, 0x2b4));
    assert(bytes::clear_of(fields, 45, 59, 0x288, 0x2b4));
    bytes::lemma_clear_of(fields, 45, 59, 0x288, 0x2b4);
    bytes::lemma_held_u32(base, fields, 0x288);
    bytes::lemma_held_u32(base, fields, 0x28c);
    bytes::lemma_held_u64(base, fields, 0x294);
    bytes::lemma_held_u32(base, fields, 0x29c);
    bytes::lemma_held_u64(base, fields, 0x2a4);
    bytes::lemma_held_u64(base, fields, 0x2ac);
    assert(bytes::clear_of(fields, 54, 59, 0x2b8, 0x2f4));
    bytes::lemma_clear_of(fields, 54, 59, 0x2b8, 0x2f4);
    bytes::lemma_held_u64(base, fields, 0x2b8);
    bytes::lemma_held_u64(base, fields, 0x2c0);
    bytes::lemma_held_u64(base, fields, 0x2c8);
    bytes::lemma_held_u64(base, fields, 0x2d0);
    bytes::lemma_held_u64(base, fields, 0x2d8);
    bytes::lemma_held_u64(base, fields, 0x2e0);
    bytes::lemma_held_u32(base, fields, 0x2e8);
    bytes::lemma_held_u64(base, fields, 0x2ec);
}

/// The end of a shading microsequence leads back to its start command, and closes the work.
pub proof fn lemma_fragment_close(a: Addresses)
    requires
        a.fragment_work + 0xc70 <= u64::MAX,
        a.fragment_microsequence + 0x1b0 <= u64::MAX,
        a.buffer_thing + 0x54 <= u64::MAX,
    ensures
        ({
            let m = bytes::image(0x380, a.fragment_microsequence_fields());
            &&& bytes::u64_in(m, 0x320) == a.fragment_microsequence + 0x1b0
            &&& bytes::u32_in(m, 0x328) == 0xfffffd78
            &&& bytes::u64_in(m, 0x32d) == a.fragment_work + 0xc60
            &&& bytes::u64_in(m, 0x335) == 0x110100000001
            &&& bytes::u32_in(m, 0x344) == 0x40000002
        }),
{
    let fields = a.fragment_microsequence_fields();
    let base = bytes::zeros(0x380);
    assert(fields.len() == 59);
    reveal_with_fuel(bytes::held, 12);
    bytes::lemma_held_u64(base, fields, 0x320);
    bytes::lemma_held_u32(base, fields, 0x328);
    bytes::lemma_held_u64(base, fields, 0x32d);
    bytes::lemma_held_u64(base, fields, 0x335);
    bytes::lemma_held_u32(base, fields, 0x344);
}

/// What no command of a shading microsequence uses is zero.
pub proof fn lemma_fragment_microsequence_rest(a: Addresses, i: int)
    requires
        0 <= i < 0x380,
        !(0 <= i < 4),
        !(0x14 <= i < 0x64),
        !(0x68 <= i < 0x70),
        !(0x7c <= i < 0x8c),
        !(0xa0 <= i < 0xa4),
        !(0x1b0 <= i < 0x1b8),
        !(0x1c8 <= i < 0x1d0),
        !(0x1e0 <= i < 0x1e8),
        !(0x1ec <= i < 0x228),
        !(0x230 <= i < 0x234),
        !(0x238 <= i < 0x278),
        !(0x280 <= i < 0x284),
        !(0x288 <= i < 0x290),
        !(0x294 <= i < 0x2a0),
        !(0x2a4 <= i < 0x2f4),
        !(0x320 <= i < 0x32c),
        !(0x32d <= i < 0x33d),
        !(0x344 <= i < 0x348),
    ensures
        bytes::image(0x380, a.fragment_microsequence_fields())[i] == 0,
{
    let fields = a.fragment_microsequence_fields();
    assert(fields.len() == 59);
    reveal_with_fuel(bytes::touched, 14);
    assert(!bytes::touched(fields, 12, i));
    assert(!bytes::touched(fields, 24, i));
    assert(!bytes::touched(fields, 36, i));
    assert(!bytes::touched(fields, 48, i));
    assert(!bytes::touched(fields, 59, i));
    bytes::lemma_untouched(bytes::zeros(0x380), fields, i);
}

/// The command before tiling names the buffer of the client and the blocks that it has.
pub proof fn lemma_tiling_prelude(a: Addresses, blocks: u32)
    ensures
        ({
            let m = bytes::image(0x40, a.tiling_prelude_fields(blocks));
            &&& bytes::u32_in(m, 0) == 6
            &&& bytes::u32_in(m, 4) == a.context_id % 0x1_0000_0000
            &&& bytes::u32_in(m, 8) == a.buffer_manager_slot % 0x1_0000_0000
            &&& bytes::u32_in(m, 0x10) == blocks
            &&& bytes::u32_in(m, 0x1c) == a.tiling_stamp % 0x1_0000_0000
            &&& bytes::u64_in(m, 0x14) == a.buffer_manager
        }),
{
    let fields = a.tiling_prelude_fields(blocks);
    let base = bytes::zeros(0x40);
    assert(fields.len() == 6);
    reveal_with_fuel(bytes::held, 12);
    bytes::lemma_held_u32(base, fields, 0);
    bytes::lemma_held_u32(base, fields, 4);
    bytes::lemma_held_u32(base, fields, 8);
    bytes::lemma_held_u32(base, fields, 0x10);
    bytes::lemma_held_u32(base, fields, 0x1c);
    bytes::lemma_held_u64(base, fields, 0x14);
}

/// The rest of the command before tiling is zero.
pub proof fn lemma_tiling_prelude_rest(a: Addresses, blocks: u32, i: int)
    requires
        0 <= i < 0x40,
        !(0 <= i < 0xc),
        !(0x10 <= i < 0x20),
    ensures
        bytes::image(0x40, a.tiling_prelude_fields(blocks))[i] == 0,
{
    let fields = a.tiling_prelude_fields(blocks);
    assert(fields.len() == 6);
    reveal_with_fuel(bytes::touched, 14);
    assert(!bytes::touched(fields, 6, i));
    bytes::lemma_untouched(bytes::zeros(0x40), fields, i);
}

/// The command before shading waits until tiling has stored its stamp: at the same address, with the same
/// value and event as the command that finishes tiling.
pub proof fn lemma_fragment_prelude(a: Addresses)
    ensures
        ({
            let m = bytes::image(0x40, a.fragment_prelude_fields());
            &&& bytes::u32_in(m, 0) == 4
            &&& bytes::u64_in(m, 4) == a.tiling_firmware_stamp
            &&& bytes::u64_in(m, 0xc) == a.tiling_firmware_stamp
            &&& bytes::u32_in(m, 0x14) == a.tiling_stamp % 0x1_0000_0000
            &&& bytes::u32_in(m, 0x20) == a.tiling_event % 0x1_0000_0000
            &&& bytes::u32_in(m, 0x24) == a.fragment_stamp % 0x1_0000_0000
            &&& bytes::u32_in(m, 0x28) == a.fragment_uuid % 0x1_0000_0000
        }),
{
    let fields = a.fragment_prelude_fields();
    let base = bytes::zeros(0x40);
    assert(fields.len() == 7);
    reveal_with_fuel(bytes::held, 12);
    bytes::lemma_held_u32(base, fields, 0);
    bytes::lemma_held_u64(base, fields, 4);
    bytes::lemma_held_u64(base, fields, 0xc);
    bytes::lemma_held_u32(base, fields, 0x14);
    bytes::lemma_held_u32(base, fields, 0x20);
    bytes::lemma_held_u32(base, fields, 0x24);
    bytes::lemma_held_u32(base, fields, 0x28);
}

/// The rest of the command before shading is zero.
pub proof fn lemma_fragment_prelude_rest(a: Addresses, i: int)
    requires
        0 <= i < 0x40,
        !(0 <= i < 0x18),
        !(0x20 <= i < 0x2c),
    ensures
        bytes::image(0x40, a.fragment_prelude_fields())[i] == 0,
{
    let fields = a.fragment_prelude_fields();
    assert(fields.len() == 7);
    reveal_with_fuel(bytes::touched, 14);
    assert(!bytes::touched(fields, 7, i));
    bytes::lemma_untouched(bytes::zeros(0x40), fields, i);
}

/// The register table of tiling, where it stands in the work.
spec fn tiling_registers_placed(p: Parameters) -> Seq<u8> {
    bytes::place(
        bytes::zeros(0x940),
        0x40,
        bytes::image(0x600, render::register_fields(p.tiling_writes())),
    )
}

/// The register table of shading, where it stands in the work.
spec fn fragment_registers_placed(p: Parameters) -> Seq<u8> {
    bytes::place(
        bytes::zeros(0xcc0),
        0x80,
        bytes::image(0x600, render::register_fields(p.fragment_writes())),
    )
}

/// A tiling work starts with its number, its context, the control of its event and the buffer of the client.
pub proof fn lemma_tiling_work_head(p: Parameters, a: Addresses)
    requires
        p.is_valid(),
    ensures
        ({
            let m = bytes::overlay(
                bytes::place(
                    bytes::zeros(0x940),
                    0x40,
                    bytes::image(0x600, render::register_fields(p.tiling_writes())),
                ),
                p.tiling_work_fields(a),
            );
            let g = p.geometry_of();
            &&& bytes::u32_in(m, 0) == 0
            &&& bytes::u64_in(m, 0x4) == a.tiling_counter
            &&& bytes::u32_in(m, 0xc) == a.context_id % 0x1_0000_0000
            &&& bytes::u64_in(m, 0x10) == a.event_control
            &&& bytes::u64_in(m, 0x18) == a.buffer_manager_slot
            &&& bytes::u64_in(m, 0x20) == a.buffer_manager
            &&& bytes::u64_in(m, 0x28) == a.buffer_thing
            &&& bytes::u64_in(m, 0x30) == a.empty_buffer
        }),
{
    let fields = p.tiling_work_fields(a);
    let base = tiling_registers_placed(p);
    let g = p.geometry_of();
    p.lemma_geometry();
    assert(g.size3 * 64 * p.layers <= 131072 * 64 * 2048) by (nonlinear_arith)
        requires
            g.size3 <= 131072,
            p.layers <= 2048,
    ;
    assert(g.size3 * 64 * p.layers >= 0) by (nonlinear_arith);
    assert(fields.len() == 36);
    reveal_with_fuel(bytes::held, 12);
    reveal_with_fuel(bytes::clear_of, 14);
    assert(bytes::clear_of(fields, 8, 20, 0, 0x38));
    assert(bytes::clear_of(fields, 8, 32, 0, 0x38));
    assert(bytes::clear_of(fields, 8, 36, 0, 0x38));
    bytes::lemma_clear_of(fields, 8, 36, 0, 0x38);
    bytes::lemma_held_u32(base, fields, 0);
    bytes::lemma_held_u64(base, fields, 0x4);
    bytes::lemma_held_u32(base, fields, 0xc);
    bytes::lemma_held_u64(base, fields, 0x10);
    bytes::lemma_held_u64(base, fields, 0x18);
    bytes::lemma_held_u64(base, fields, 0x20);
    bytes::lemma_held_u64(base, fields, 0x28);
    bytes::lemma_held_u64(base, fields, 0x30);
}

/// A tiling work names its registers, its tile pointers and the size of them, and its microsequence.
pub proof fn lemma_tiling_work_links(p: Parameters, a: Addresses)
    requires
        p.is_valid(),
    ensures
        ({
            let m = bytes::overlay(
                bytes::place(
                    bytes::zeros(0x940),
                    0x40,
                    bytes::image(0x600, render::register_fields(p.tiling_writes())),
                ),
                p.tiling_work_fields(a),
            );
            let g = p.geometry_of();
            &&& bytes::u64_in(m, 0x740) == a.tiling_register_alias
            &&& bytes::u16_in(m, 0x748) == 0x41
            &&& bytes::u16_in(m, 0x74a) == 0x30c
            &&& bytes::u64_in(m, 0x760) == p.tpc
            &&& bytes::u64_in(m, 0x768) == (g.size3 * 64 * p.layers)
            &&& bytes::u64_in(m, 0x770) == a.tiling_microsequence
            &&& bytes::u32_in(m, 0x778) == 0x300
            &&& bytes::u32_in(m, 0x77c) == 0x11
            &&& bytes::u32_in(m, 0x780) == a.fragment_stamp % 0x1_0000_0000
            &&& bytes::u64_in(m, 0x7a8) == (p.deflake_1 - p.context_base)
        }),
{
    let fields = p.tiling_work_fields(a);
    let base = tiling_registers_placed(p);
    let g = p.geometry_of();
    p.lemma_geometry();
    assert(g.size3 * 64 * p.layers <= 131072 * 64 * 2048) by (nonlinear_arith)
        requires
            g.size3 <= 131072,
            p.layers <= 2048,
    ;
    assert(g.size3 * 64 * p.layers >= 0) by (nonlinear_arith);
    assert(fields.len() == 36);
    reveal_with_fuel(bytes::held, 12);
    reveal_with_fuel(bytes::clear_of, 14);
    assert(bytes::clear_of(fields, 18, 30, 0x740, 0x7b0));
    assert(bytes::clear_of(fields, 18, 36, 0x740, 0x7b0));
    bytes::lemma_clear_of(fields, 18, 36, 0x740, 0x7b0);
    bytes::lemma_held_u64(base, fields, 0x740);
    bytes::lemma_held_u16(base, fields, 0x748);
    bytes::lemma_held_u16(base, fields, 0x74a);
    bytes::lemma_held_u64(base, fields, 0x760);
    bytes::lemma_held_u64(base, fields, 0x768);
    bytes::lemma_held_u64(base, fields, 0x770);
    bytes::lemma_held_u32(base, fields, 0x778);
    bytes::lemma_held_u32(base, fields, 0x77c);
    bytes::lemma_held_u32(base, fields, 0x780);
    bytes::lemma_held_u64(base, fields, 0x7a8);
}

/// A tiling work names its samplers, and says whether its buffer may grow.
pub proof fn lemma_tiling_work_state(p: Parameters, a: Addresses)
    requires
        p.is_valid(),
    ensures
        ({
            let m = bytes::overlay(
                bytes::place(
                    bytes::zeros(0x940),
                    0x40,
                    bytes::image(0x600, render::register_fields(p.tiling_writes())),
                ),
                p.tiling_work_fields(a),
            );
            let g = p.geometry_of();
            &&& m[0x864] == (if p.request_tvb_growth { 1int } else { 0 })
            &&& bytes::u64_in(m, 0x840) == p.tiling_lifecycle / 0x1_0000_0000
            &&& bytes::u32_in(m, 0x848) == 0xffff_ffff
            &&& bytes::u64_in(m, 0x84c) == p.sampler_array
            &&& bytes::u32_in(m, 0x854) == p.sampler_count % 0x1_0000_0000
            &&& bytes::u32_in(m, 0x858) == (if p.sampler_count == 0 { 0int } else { p.sampler_count + 1 })
        }),
{
    let fields = p.tiling_work_fields(a);
    let base = tiling_registers_placed(p);
    let g = p.geometry_of();
    p.lemma_geometry();
    assert(g.size3 * 64 * p.layers <= 131072 * 64 * 2048) by (nonlinear_arith)
        requires
            g.size3 <= 131072,
            p.layers <= 2048,
    ;
    assert(g.size3 * 64 * p.layers >= 0) by (nonlinear_arith);
    assert(fields.len() == 36);
    reveal_with_fuel(bytes::held, 12);
    reveal_with_fuel(bytes::clear_of, 14);
    assert(bytes::clear_of(fields, 24, 36, 0x840, 0x865));
    bytes::lemma_clear_of(fields, 24, 36, 0x840, 0x865);
    bytes::lemma_held_u8(base, fields, 0x864);
    bytes::lemma_held_u64(base, fields, 0x840);
    bytes::lemma_held_u32(base, fields, 0x848);
    bytes::lemma_held_u64(base, fields, 0x84c);
    bytes::lemma_held_u32(base, fields, 0x854);
    bytes::lemma_held_u32(base, fields, 0x858);
}

/// A tiling work names both addresses of its stamp, the value, the event and its identity.
pub proof fn lemma_tiling_work_stamps(p: Parameters, a: Addresses)
    requires
        p.is_valid(),
    ensures
        ({
            let m = bytes::overlay(
                bytes::place(
                    bytes::zeros(0x940),
                    0x40,
                    bytes::image(0x600, render::register_fields(p.tiling_writes())),
                ),
                p.tiling_work_fields(a),
            );
            let g = p.geometry_of();
            &&& bytes::u64_in(m, 0x878) == a.tiling_driver_stamp
            &&& bytes::u64_in(m, 0x880) == a.tiling_firmware_stamp
            &&& bytes::u32_in(m, 0x888) == a.tiling_stamp % 0x1_0000_0000
            &&& bytes::u32_in(m, 0x88c) == a.tiling_event % 0x1_0000_0000
            &&& bytes::u32_in(m, 0x898) == a.tiling_uuid % 0x1_0000_0000
            &&& bytes::u64_in(m, 0x8a0) == (p.layers - 1)
        }),
{
    let fields = p.tiling_work_fields(a);
    let base = tiling_registers_placed(p);
    let g = p.geometry_of();
    p.lemma_geometry();
    assert(g.size3 * 64 * p.layers <= 131072 * 64 * 2048) by (nonlinear_arith)
        requires
            g.size3 <= 131072,
            p.layers <= 2048,
    ;
    assert(g.size3 * 64 * p.layers >= 0) by (nonlinear_arith);
    assert(fields.len() == 36);
    reveal_with_fuel(bytes::held, 12);
    reveal_with_fuel(bytes::clear_of, 14);
    assert(bytes::clear_of(fields, 30, 36, 0x878, 0x8a8));
    bytes::lemma_clear_of(fields, 30, 36, 0x878, 0x8a8);
    bytes::lemma_held_u64(base, fields, 0x878);
    bytes::lemma_held_u64(base, fields, 0x880);
    bytes::lemma_held_u32(base, fields, 0x888);
    bytes::lemma_held_u32(base, fields, 0x88c);
    bytes::lemma_held_u32(base, fields, 0x898);
    bytes::lemma_held_u64(base, fields, 0x8a0);
}

/// A tiling work names the times that the client asks for, and the pages that it shares.
pub proof fn lemma_tiling_work_pages(p: Parameters, a: Addresses)
    requires
        p.is_valid(),
    ensures
        ({
            let m = bytes::overlay(
                bytes::place(
                    bytes::zeros(0x940),
                    0x40,
                    bytes::image(0x600, render::register_fields(p.tiling_writes())),
                ),
                p.tiling_work_fields(a),
            );
            let g = p.geometry_of();
            &&& bytes::u64_in(m, 0x8c8) == a.timestamp_start
            &&& bytes::u64_in(m, 0x8d8) == a.tiling_user_timestamp_start
            &&& bytes::u64_in(m, 0x8e0) == a.tiling_user_timestamp_end
            &&& bytes::u64_in(m, 0x8ff) == 0x100_0000_0000_0000 + a.support / 0x100
            &&& bytes::u64_in(m, 0x908) == 0xdaa0 + (if p.layers > 1 { 0x4000_0000_0000_0000int } else { 0 })
            &&& bytes::u64_in(m, 0x910) == 0x100_0000_0000_0000 + a.tiling_shared_tail / 0x100
        }),
{
    let fields = p.tiling_work_fields(a);
    let base = tiling_registers_placed(p);
    let g = p.geometry_of();
    p.lemma_geometry();
    assert(g.size3 * 64 * p.layers <= 131072 * 64 * 2048) by (nonlinear_arith)
        requires
            g.size3 <= 131072,
            p.layers <= 2048,
    ;
    assert(g.size3 * 64 * p.layers >= 0) by (nonlinear_arith);
    assert(fields.len() == 36);
    reveal_with_fuel(bytes::held, 12);
    bytes::lemma_held_u64(base, fields, 0x8c8);
    bytes::lemma_held_u64(base, fields, 0x8d8);
    bytes::lemma_held_u64(base, fields, 0x8e0);
    bytes::lemma_held_u64(base, fields, 0x8ff);
    bytes::lemma_held_u64(base, fields, 0x908);
    bytes::lemma_held_u64(base, fields, 0x910);
}

/// A shading work starts with its number, its context, its microsequence, and the buffer of the client.
pub proof fn lemma_fragment_work_head(p: Parameters, a: Addresses, ratio_x: u32, ratio_y: u32)
    requires
        p.is_valid(),
    ensures
        ({
            let m = bytes::overlay(
                bytes::place(
                    bytes::zeros(0xcc0),
                    0x80,
                    bytes::image(0x600, render::register_fields(p.fragment_writes())),
                ),
                p.fragment_work_fields(a, ratio_x, ratio_y),
            );
            let g = p.geometry_of();
            &&& bytes::u32_in(m, 0) == 0x1
            &&& bytes::u64_in(m, 4) == a.fragment_counter
            &&& bytes::u32_in(m, 0xc) == a.context_id % 0x1_0000_0000
            &&& bytes::u32_in(m, 0x10) == 0x0
            &&& bytes::u64_in(m, 0x14) == a.fragment_microsequence
            &&& bytes::u32_in(m, 0x1c) == 0x380
            &&& bytes::u64_in(m, 0x20) == a.event_control
            &&& bytes::u64_in(m, 0x28) == a.buffer_manager
            &&& bytes::u64_in(m, 0x30) == a.buffer_thing
            &&& bytes::u64_in(m, 0x38) == a.empty_buffer
        }),
{
    let fields = p.fragment_work_fields(a, ratio_x, ratio_y);
    let base = fragment_registers_placed(p);
    let g = p.geometry_of();
    p.lemma_geometry();
    assert(1 <= g.tiles_x * g.tiles_y <= 512 * 512) by (nonlinear_arith)
        requires
            1 <= g.tiles_x <= 512,
            1 <= g.tiles_y <= 512,
    ;
    assert(fields.len() == 83);
    reveal_with_fuel(bytes::held, 12);
    reveal_with_fuel(bytes::clear_of, 14);
    assert(bytes::clear_of(fields, 10, 22, 0, 0x40));
    assert(bytes::clear_of(fields, 10, 34, 0, 0x40));
    assert(bytes::clear_of(fields, 10, 46, 0, 0x40));
    assert(bytes::clear_of(fields, 10, 58, 0, 0x40));
    assert(bytes::clear_of(fields, 10, 70, 0, 0x40));
    assert(bytes::clear_of(fields, 10, 82, 0, 0x40));
    assert(bytes::clear_of(fields, 10, 83, 0, 0x40));
    bytes::lemma_clear_of(fields, 10, 83, 0, 0x40);
    bytes::lemma_held_u32(base, fields, 0);
    bytes::lemma_held_u64(base, fields, 4);
    bytes::lemma_held_u32(base, fields, 0xc);
    bytes::lemma_held_u32(base, fields, 0x10);
    bytes::lemma_held_u64(base, fields, 0x14);
    bytes::lemma_held_u32(base, fields, 0x1c);
    bytes::lemma_held_u64(base, fields, 0x20);
    bytes::lemma_held_u64(base, fields, 0x28);
    bytes::lemma_held_u64(base, fields, 0x30);
    bytes::lemma_held_u64(base, fields, 0x38);
}

/// A shading work names the tilemap, and the geometry of the render.
pub proof fn lemma_fragment_work_geometry(p: Parameters, a: Addresses, ratio_x: u32, ratio_y: u32)
    requires
        p.is_valid(),
    ensures
        ({
            let m = bytes::overlay(
                bytes::place(
                    bytes::zeros(0xcc0),
                    0x80,
                    bytes::image(0x600, render::register_fields(p.fragment_writes())),
                ),
                p.fragment_work_fields(a, ratio_x, ratio_y),
            );
            let g = p.geometry_of();
            &&& bytes::u64_in(m, 0x40) == p.tilemap
            &&& bytes::u64_in(m, 0x48) == p.multisample_control
            &&& bytes::u32_in(m, 0x50) == p.samples % 0x1_0000_0000
            &&& bytes::u32_in(m, 0x54) == g.macro_size % 0x1_0000_0000
            &&& bytes::u32_in(m, 0x68) == (if p.merge_upper_x_bits != 0 { p.merge_upper_x_bits % 0x1_0000_0000 } else { ratio_x as u64 })
            &&& bytes::u32_in(m, 0x6c) == (if p.merge_upper_y_bits != 0 { p.merge_upper_y_bits % 0x1_0000_0000 } else { ratio_y as u64 })
            &&& bytes::u64_in(m, 0x78) == (g.tiles_x * g.tiles_y)
        }),
{
    let fields = p.fragment_work_fields(a, ratio_x, ratio_y);
    let base = fragment_registers_placed(p);
    let g = p.geometry_of();
    p.lemma_geometry();
    assert(1 <= g.tiles_x * g.tiles_y <= 512 * 512) by (nonlinear_arith)
        requires
            1 <= g.tiles_x <= 512,
            1 <= g.tiles_y <= 512,
    ;
    assert(fields.len() == 83);
    reveal_with_fuel(bytes::held, 12);
    reveal_with_fuel(bytes::clear_of, 14);
    assert(bytes::clear_of(fields, 17, 29, 0x40, 0x80));
    assert(bytes::clear_of(fields, 17, 41, 0x40, 0x80));
    assert(bytes::clear_of(fields, 17, 53, 0x40, 0x80));
    assert(bytes::clear_of(fields, 17, 65, 0x40, 0x80));
    assert(bytes::clear_of(fields, 17, 77, 0x40, 0x80));
    assert(bytes::clear_of(fields, 17, 83, 0x40, 0x80));
    bytes::lemma_clear_of(fields, 17, 83, 0x40, 0x80);
    bytes::lemma_held_u64(base, fields, 0x40);
    bytes::lemma_held_u64(base, fields, 0x48);
    bytes::lemma_held_u32(base, fields, 0x50);
    bytes::lemma_held_u32(base, fields, 0x54);
    bytes::lemma_held_u32(base, fields, 0x68);
    bytes::lemma_held_u32(base, fields, 0x6c);
    bytes::lemma_held_u64(base, fields, 0x78);
}

/// The words that every shading work holds alike, and the place of its registers.
pub proof fn lemma_fragment_work_constants(p: Parameters, a: Addresses, ratio_x: u32, ratio_y: u32)
    requires
        p.is_valid(),
    ensures
        ({
            let m = bytes::overlay(
                bytes::place(
                    bytes::zeros(0xcc0),
                    0x80,
                    bytes::image(0x600, render::register_fields(p.fragment_writes())),
                ),
                p.fragment_work_fields(a, ratio_x, ratio_y),
            );
            let g = p.geometry_of();
            &&& bytes::u64_in(m, 0x680) == 0x8c020001dddc00
            &&& bytes::u64_in(m, 0x688) == 0xa0001de1800
            &&& bytes::u64_in(m, 0x690) == 0x8c020200029800
            &&& bytes::u64_in(m, 0x698) == 0x220200039520
            &&& bytes::u64_in(m, 0x780) == a.fragment_register_alias
            &&& bytes::u16_in(m, 0x788) == 0x51
            &&& bytes::u16_in(m, 0x78a) == 0x3cc
        }),
{
    let fields = p.fragment_work_fields(a, ratio_x, ratio_y);
    let base = fragment_registers_placed(p);
    let g = p.geometry_of();
    p.lemma_geometry();
    assert(1 <= g.tiles_x * g.tiles_y <= 512 * 512) by (nonlinear_arith)
        requires
            1 <= g.tiles_x <= 512,
            1 <= g.tiles_y <= 512,
    ;
    assert(fields.len() == 83);
    reveal_with_fuel(bytes::held, 12);
    reveal_with_fuel(bytes::clear_of, 14);
    assert(bytes::clear_of(fields, 24, 36, 0x680, 0x78c));
    assert(bytes::clear_of(fields, 24, 48, 0x680, 0x78c));
    assert(bytes::clear_of(fields, 24, 60, 0x680, 0x78c));
    assert(bytes::clear_of(fields, 24, 72, 0x680, 0x78c));
    assert(bytes::clear_of(fields, 24, 83, 0x680, 0x78c));
    bytes::lemma_clear_of(fields, 24, 83, 0x680, 0x78c);
    bytes::lemma_held_u64(base, fields, 0x680);
    bytes::lemma_held_u64(base, fields, 0x688);
    bytes::lemma_held_u64(base, fields, 0x690);
    bytes::lemma_held_u64(base, fields, 0x698);
    bytes::lemma_held_u64(base, fields, 0x780);
    bytes::lemma_held_u16(base, fields, 0x788);
    bytes::lemma_held_u16(base, fields, 0x78a);
}

/// A shading work names the arrays of the render, and the programs that load tiles.
pub proof fn lemma_fragment_work_programs(p: Parameters, a: Addresses, ratio_x: u32, ratio_y: u32)
    requires
        p.is_valid(),
    ensures
        ({
            let m = bytes::overlay(
                bytes::place(
                    bytes::zeros(0xcc0),
                    0x80,
                    bytes::image(0x600, render::register_fields(p.fragment_writes())),
                ),
                p.fragment_work_fields(a, ratio_x, ratio_y),
            );
            let g = p.geometry_of();
            &&& bytes::u64_in(m, 0x7a0) == p.depth_bias_array
            &&& bytes::u64_in(m, 0x7b0) == p.scissor_array
            &&& bytes::u64_in(m, 0x7c0) == p.occlusion_query_base
            &&& bytes::u64_in(m, 0x8f8) == p.load_pipeline_bind
            &&& bytes::u64_in(m, 0x900) == p.load_pipeline
            &&& bytes::u64_in(m, 0x928) == p.partial_load_pipeline_bind
            &&& bytes::u64_in(m, 0x930) == p.partial_load_pipeline
        }),
{
    let fields = p.fragment_work_fields(a, ratio_x, ratio_y);
    let base = fragment_registers_placed(p);
    let g = p.geometry_of();
    p.lemma_geometry();
    assert(1 <= g.tiles_x * g.tiles_y <= 512 * 512) by (nonlinear_arith)
        requires
            1 <= g.tiles_x <= 512,
            1 <= g.tiles_y <= 512,
    ;
    assert(fields.len() == 83);
    reveal_with_fuel(bytes::held, 12);
    reveal_with_fuel(bytes::clear_of, 14);
    assert(bytes::clear_of(fields, 31, 43, 0x7a0, 0x938));
    assert(bytes::clear_of(fields, 31, 55, 0x7a0, 0x938));
    assert(bytes::clear_of(fields, 31, 67, 0x7a0, 0x938));
    assert(bytes::clear_of(fields, 31, 79, 0x7a0, 0x938));
    assert(bytes::clear_of(fields, 31, 83, 0x7a0, 0x938));
    bytes::lemma_clear_of(fields, 31, 83, 0x7a0, 0x938);
    bytes::lemma_held_u64(base, fields, 0x7a0);
    bytes::lemma_held_u64(base, fields, 0x7b0);
    bytes::lemma_held_u64(base, fields, 0x7c0);
    bytes::lemma_held_u64(base, fields, 0x8f8);
    bytes::lemma_held_u64(base, fields, 0x900);
    bytes::lemma_held_u64(base, fields, 0x928);
    bytes::lemma_held_u64(base, fields, 0x930);
}

/// A shading work loads and stores depth in the depth buffer of the render.
pub proof fn lemma_fragment_work_depth(p: Parameters, a: Addresses, ratio_x: u32, ratio_y: u32)
    requires
        p.is_valid(),
    ensures
        ({
            let m = bytes::overlay(
                bytes::place(
                    bytes::zeros(0xcc0),
                    0x80,
                    bytes::image(0x600, render::register_fields(p.fragment_writes())),
                ),
                p.fragment_work_fields(a, ratio_x, ratio_y),
            );
            let g = p.geometry_of();
            &&& bytes::u64_in(m, 0x938) == p.depth_flags
            &&& bytes::u32_in(m, 0x940) == 0x4040404
            &&& bytes::u64_in(m, 0x948) == p.depth_buffer
            &&& bytes::u64_in(m, 0x950) == p.depth_stride
            &&& bytes::u64_in(m, 0x958) == p.depth_aux_stride
            &&& bytes::u64_in(m, 0x960) == p.depth_buffer
            &&& bytes::u64_in(m, 0x968) == p.depth_buffer
            &&& bytes::u64_in(m, 0x970) == p.depth_aux_buffer
        }),
{
    let fields = p.fragment_work_fields(a, ratio_x, ratio_y);
    let base = fragment_registers_placed(p);
    let g = p.geometry_of();
    p.lemma_geometry();
    assert(1 <= g.tiles_x * g.tiles_y <= 512 * 512) by (nonlinear_arith)
        requires
            1 <= g.tiles_x <= 512,
            1 <= g.tiles_y <= 512,
    ;
    assert(fields.len() == 83);
    reveal_with_fuel(bytes::held, 12);
    reveal_with_fuel(bytes::clear_of, 14);
    assert(bytes::clear_of(fields, 39, 51, 0x938, 0x978));
    assert(bytes::clear_of(fields, 39, 63, 0x938, 0x978));
    assert(bytes::clear_of(fields, 39, 75, 0x938, 0x978));
    assert(bytes::clear_of(fields, 39, 83, 0x938, 0x978));
    bytes::lemma_clear_of(fields, 39, 83, 0x938, 0x978);
    bytes::lemma_held_u64(base, fields, 0x938);
    bytes::lemma_held_u32(base, fields, 0x940);
    bytes::lemma_held_u64(base, fields, 0x948);
    bytes::lemma_held_u64(base, fields, 0x950);
    bytes::lemma_held_u64(base, fields, 0x958);
    bytes::lemma_held_u64(base, fields, 0x960);
    bytes::lemma_held_u64(base, fields, 0x968);
    bytes::lemma_held_u64(base, fields, 0x970);
}

/// A shading work loads and stores stencil in the stencil buffer of the render.
pub proof fn lemma_fragment_work_stencil(p: Parameters, a: Addresses, ratio_x: u32, ratio_y: u32)
    requires
        p.is_valid(),
    ensures
        ({
            let m = bytes::overlay(
                bytes::place(
                    bytes::zeros(0xcc0),
                    0x80,
                    bytes::image(0x600, render::register_fields(p.fragment_writes())),
                ),
                p.fragment_work_fields(a, ratio_x, ratio_y),
            );
            let g = p.geometry_of();
            &&& bytes::u64_in(m, 0x978) == p.stencil_buffer
            &&& bytes::u64_in(m, 0x980) == p.stencil_stride
            &&& bytes::u64_in(m, 0x988) == p.stencil_aux_stride
            &&& bytes::u64_in(m, 0x990) == p.stencil_buffer
            &&& bytes::u64_in(m, 0x998) == p.stencil_buffer
            &&& bytes::u64_in(m, 0x9a0) == p.stencil_aux_buffer
        }),
{
    let fields = p.fragment_work_fields(a, ratio_x, ratio_y);
    let base = fragment_registers_placed(p);
    let g = p.geometry_of();
    p.lemma_geometry();
    assert(1 <= g.tiles_x * g.tiles_y <= 512 * 512) by (nonlinear_arith)
        requires
            1 <= g.tiles_x <= 512,
            1 <= g.tiles_y <= 512,
    ;
    assert(fields.len() == 83);
    reveal_with_fuel(bytes::held, 12);
    reveal_with_fuel(bytes::clear_of, 14);
    assert(bytes::clear_of(fields, 45, 57, 0x978, 0x9a8));
    assert(bytes::clear_of(fields, 45, 69, 0x978, 0x9a8));
    assert(bytes::clear_of(fields, 45, 81, 0x978, 0x9a8));
    assert(bytes::clear_of(fields, 45, 83, 0x978, 0x9a8));
    bytes::lemma_clear_of(fields, 45, 83, 0x978, 0x9a8);
    bytes::lemma_held_u64(base, fields, 0x978);
    bytes::lemma_held_u64(base, fields, 0x980);
    bytes::lemma_held_u64(base, fields, 0x988);
    bytes::lemma_held_u64(base, fields, 0x990);
    bytes::lemma_held_u64(base, fields, 0x998);
    bytes::lemma_held_u64(base, fields, 0x9a0);
}

/// A shading work names the tile memory, the size and the layout of the render.
pub proof fn lemma_fragment_work_tiles(p: Parameters, a: Addresses, ratio_x: u32, ratio_y: u32)
    requires
        p.is_valid(),
    ensures
        ({
            let m = bytes::overlay(
                bytes::place(
                    bytes::zeros(0xcc0),
                    0x80,
                    bytes::image(0x600, render::register_fields(p.fragment_writes())),
                ),
                p.fragment_work_fields(a, ratio_x, ratio_y),
            );
            let g = p.geometry_of();
            &&& bytes::u32_in(m, 0x9b8) == (p.tib_of()) % 0x1_0000_0000
            &&& bytes::u64_in(m, 0x9c0) == p.aux_fb_flags
            &&& bytes::u64_in(m, 0x9c8) == (p.height * 0x1_0000_0000 + p.width)
            &&& bytes::u64_in(m, 0x9d0) == p.aux_fb_page_count
            &&& bytes::u64_in(m, 0x9d8) == p.tile_config
        }),
{
    let fields = p.fragment_work_fields(a, ratio_x, ratio_y);
    let base = fragment_registers_placed(p);
    let g = p.geometry_of();
    p.lemma_geometry();
    assert(1 <= g.tiles_x * g.tiles_y <= 512 * 512) by (nonlinear_arith)
        requires
            1 <= g.tiles_x <= 512,
            1 <= g.tiles_y <= 512,
    ;
    assert(fields.len() == 83);
    reveal_with_fuel(bytes::held, 12);
    reveal_with_fuel(bytes::clear_of, 14);
    assert(bytes::clear_of(fields, 50, 62, 0x9b8, 0x9e0));
    assert(bytes::clear_of(fields, 50, 74, 0x9b8, 0x9e0));
    assert(bytes::clear_of(fields, 50, 83, 0x9b8, 0x9e0));
    bytes::lemma_clear_of(fields, 50, 83, 0x9b8, 0x9e0);
    bytes::lemma_held_u32(base, fields, 0x9b8);
    bytes::lemma_held_u64(base, fields, 0x9c0);
    bytes::lemma_held_u64(base, fields, 0x9c8);
    bytes::lemma_held_u64(base, fields, 0x9d0);
    bytes::lemma_held_u64(base, fields, 0x9d8);
}

/// A shading work names the programs that store tiles, and the values that clear them.
pub proof fn lemma_fragment_work_stores(p: Parameters, a: Addresses, ratio_x: u32, ratio_y: u32)
    requires
        p.is_valid(),
    ensures
        ({
            let m = bytes::overlay(
                bytes::place(
                    bytes::zeros(0xcc0),
                    0x80,
                    bytes::image(0x600, render::register_fields(p.fragment_writes())),
                ),
                p.fragment_work_fields(a, ratio_x, ratio_y),
            );
            let g = p.geometry_of();
            &&& bytes::u32_in(m, 0x9f4) == p.store_pipeline_bind % 0x1_0000_0000
            &&& bytes::u64_in(m, 0x9fc) == p.store_pipeline
            &&& bytes::u32_in(m, 0xa14) == p.partial_store_pipeline_bind % 0x1_0000_0000
            &&& bytes::u64_in(m, 0xa1c) == p.partial_store_pipeline
            &&& bytes::u32_in(m, 0xa28) == p.depth_clear_value_bits % 0x1_0000_0000
            &&& bytes::u32_in(m, 0xa2c) == ((p.stencil_clear_value % 0x100) % 0x1_0000_0000 + 0x300)
            &&& bytes::u64_in(m, 0xa30) == p.sample_size
            &&& bytes::u64_in(m, 0xa50) == p.depth_dimensions
        }),
{
    let fields = p.fragment_work_fields(a, ratio_x, ratio_y);
    let base = fragment_registers_placed(p);
    let g = p.geometry_of();
    p.lemma_geometry();
    assert(1 <= g.tiles_x * g.tiles_y <= 512 * 512) by (nonlinear_arith)
        requires
            1 <= g.tiles_x <= 512,
            1 <= g.tiles_y <= 512,
    ;
    assert(fields.len() == 83);
    reveal_with_fuel(bytes::held, 12);
    reveal_with_fuel(bytes::clear_of, 14);
    assert(bytes::clear_of(fields, 51, 63, 0x9f4, 0x9f8));
    assert(bytes::clear_of(fields, 51, 75, 0x9f4, 0x9f8));
    assert(bytes::clear_of(fields, 51, 83, 0x9f4, 0x9f8));
    bytes::lemma_clear_of(fields, 51, 83, 0x9f4, 0x9f8);
    bytes::lemma_held_u32(base, fields, 0x9f4);
    assert(bytes::clear_of(fields, 54, 66, 0x9fc, 0xa18));
    assert(bytes::clear_of(fields, 54, 78, 0x9fc, 0xa18));
    assert(bytes::clear_of(fields, 54, 83, 0x9fc, 0xa18));
    bytes::lemma_clear_of(fields, 54, 83, 0x9fc, 0xa18);
    bytes::lemma_held_u64(base, fields, 0x9fc);
    bytes::lemma_held_u32(base, fields, 0xa14);
    assert(bytes::clear_of(fields, 60, 72, 0xa1c, 0xa58));
    assert(bytes::clear_of(fields, 60, 83, 0xa1c, 0xa58));
    bytes::lemma_clear_of(fields, 60, 83, 0xa1c, 0xa58);
    bytes::lemma_held_u64(base, fields, 0xa1c);
    bytes::lemma_held_u32(base, fields, 0xa28);
    bytes::lemma_held_u32(base, fields, 0xa2c);
    bytes::lemma_held_u64(base, fields, 0xa30);
    bytes::lemma_held_u64(base, fields, 0xa50);
}

/// A shading work names its samplers, and says how tiles are treated.
pub proof fn lemma_fragment_work_state(p: Parameters, a: Addresses, ratio_x: u32, ratio_y: u32)
    requires
        p.is_valid(),
    ensures
        ({
            let m = bytes::overlay(
                bytes::place(
                    bytes::zeros(0xcc0),
                    0x80,
                    bytes::image(0x600, render::register_fields(p.fragment_writes())),
                ),
                p.fragment_work_fields(a, ratio_x, ratio_y),
            );
            let g = p.geometry_of();
            &&& bytes::u32_in(m, 0xb80) == (if p.fragment_sync_grow { 1int } else { 0 })
            &&& bytes::u64_in(m, 0xb88) == p.fragment_lifecycle / 0x1_0000_0000
            &&& bytes::u32_in(m, 0xb90) == 0xffffffff
            &&& bytes::u64_in(m, 0xb94) == p.sampler_array
            &&& bytes::u32_in(m, 0xb9c) == p.sampler_count % 0x1_0000_0000
            &&& bytes::u32_in(m, 0xba0) == (if p.sampler_count == 0 { 0int } else { p.sampler_count + 1 })
            &&& bytes::u32_in(m, 0xba4) == (if p.process_empty_tiles { 1int } else { 0 })
            &&& bytes::u32_in(m, 0xba8) == 0x1
            &&& bytes::u32_in(m, 0xbac) == (if p.samples > 1 { 1int } else { 0 })
        }),
{
    let fields = p.fragment_work_fields(a, ratio_x, ratio_y);
    let base = fragment_registers_placed(p);
    let g = p.geometry_of();
    p.lemma_geometry();
    assert(1 <= g.tiles_x * g.tiles_y <= 512 * 512) by (nonlinear_arith)
        requires
            1 <= g.tiles_x <= 512,
            1 <= g.tiles_y <= 512,
    ;
    assert(fields.len() == 83);
    reveal_with_fuel(bytes::held, 12);
    reveal_with_fuel(bytes::clear_of, 14);
    assert(bytes::clear_of(fields, 69, 81, 0xb80, 0xbb0));
    assert(bytes::clear_of(fields, 69, 83, 0xb80, 0xbb0));
    bytes::lemma_clear_of(fields, 69, 83, 0xb80, 0xbb0);
    bytes::lemma_held_u32(base, fields, 0xb80);
    bytes::lemma_held_u64(base, fields, 0xb88);
    bytes::lemma_held_u32(base, fields, 0xb90);
    bytes::lemma_held_u64(base, fields, 0xb94);
    bytes::lemma_held_u32(base, fields, 0xb9c);
    bytes::lemma_held_u32(base, fields, 0xba0);
    bytes::lemma_held_u32(base, fields, 0xba4);
    bytes::lemma_held_u32(base, fields, 0xba8);
    bytes::lemma_held_u32(base, fields, 0xbac);
}

/// A shading work names both addresses of its stamp, the value, the event and its identity.
pub proof fn lemma_fragment_work_stamps(p: Parameters, a: Addresses, ratio_x: u32, ratio_y: u32)
    requires
        p.is_valid(),
    ensures
        ({
            let m = bytes::overlay(
                bytes::place(
                    bytes::zeros(0xcc0),
                    0x80,
                    bytes::image(0x600, render::register_fields(p.fragment_writes())),
                ),
                p.fragment_work_fields(a, ratio_x, ratio_y),
            );
            let g = p.geometry_of();
            &&& bytes::u64_in(m, 0xbc0) == a.fragment_driver_stamp
            &&& bytes::u64_in(m, 0xbc8) == a.fragment_firmware_stamp
            &&& bytes::u32_in(m, 0xbd0) == a.fragment_stamp % 0x1_0000_0000
            &&& bytes::u32_in(m, 0xbd4) == a.fragment_event % 0x1_0000_0000
            &&& bytes::u32_in(m, 0xbe0) == a.fragment_uuid % 0x1_0000_0000
            &&& bytes::u64_in(m, 0xbe8) == (p.layers - 1)
        }),
{
    let fields = p.fragment_work_fields(a, ratio_x, ratio_y);
    let base = fragment_registers_placed(p);
    let g = p.geometry_of();
    p.lemma_geometry();
    assert(1 <= g.tiles_x * g.tiles_y <= 512 * 512) by (nonlinear_arith)
        requires
            1 <= g.tiles_x <= 512,
            1 <= g.tiles_y <= 512,
    ;
    assert(fields.len() == 83);
    reveal_with_fuel(bytes::held, 12);
    reveal_with_fuel(bytes::clear_of, 14);
    assert(bytes::clear_of(fields, 75, 83, 0xbc0, 0xbf0));
    bytes::lemma_clear_of(fields, 75, 83, 0xbc0, 0xbf0);
    bytes::lemma_held_u64(base, fields, 0xbc0);
    bytes::lemma_held_u64(base, fields, 0xbc8);
    bytes::lemma_held_u32(base, fields, 0xbd0);
    bytes::lemma_held_u32(base, fields, 0xbd4);
    bytes::lemma_held_u32(base, fields, 0xbe0);
    bytes::lemma_held_u64(base, fields, 0xbe8);
}

/// A shading work names the times that the client asks for, and the pages that it shares.
pub proof fn lemma_fragment_work_pages(p: Parameters, a: Addresses, ratio_x: u32, ratio_y: u32)
    requires
        p.is_valid(),
    ensures
        ({
            let m = bytes::overlay(
                bytes::place(
                    bytes::zeros(0xcc0),
                    0x80,
                    bytes::image(0x600, render::register_fields(p.fragment_writes())),
                ),
                p.fragment_work_fields(a, ratio_x, ratio_y),
            );
            let g = p.geometry_of();
            &&& bytes::u64_in(m, 0xc10) == a.timestamp_start
            &&& bytes::u64_in(m, 0xc18) == a.timestamp_end
            &&& bytes::u64_in(m, 0xc20) == a.fragment_user_timestamp_start
            &&& bytes::u64_in(m, 0xc28) == a.fragment_user_timestamp_end
            &&& bytes::u64_in(m, 0xc47) == 0x100_0000_0000_0000 + a.support / 0x100
            &&& bytes::u64_in(m, 0xc50) == 0x113a0 + (if p.layers > 1 { 0x4000_0000_0000_0000int } else { 0 })
            &&& bytes::u64_in(m, 0xc58) == 0x100_0000_0000_0000 + a.fragment_shared_tail / 0x100
            &&& bytes::u64_in(m, 0xc80) == 0x100000000
        }),
{
    let fields = p.fragment_work_fields(a, ratio_x, ratio_y);
    let base = fragment_registers_placed(p);
    let g = p.geometry_of();
    p.lemma_geometry();
    assert(1 <= g.tiles_x * g.tiles_y <= 512 * 512) by (nonlinear_arith)
        requires
            1 <= g.tiles_x <= 512,
            1 <= g.tiles_y <= 512,
    ;
    assert(fields.len() == 83);
    reveal_with_fuel(bytes::held, 12);
    bytes::lemma_held_u64(base, fields, 0xc10);
    bytes::lemma_held_u64(base, fields, 0xc18);
    bytes::lemma_held_u64(base, fields, 0xc20);
    bytes::lemma_held_u64(base, fields, 0xc28);
    bytes::lemma_held_u64(base, fields, 0xc47);
    bytes::lemma_held_u64(base, fields, 0xc50);
    bytes::lemma_held_u64(base, fields, 0xc58);
    bytes::lemma_held_u64(base, fields, 0xc80);
}

/// What a tiling microsequence holds before its end: the mark of the closing command, of which the last byte
/// belongs to the end.
pub proof fn lemma_tiling_mark(a: Addresses)
    ensures
        ({
            let m = bytes::image(0x300, a.tiling_microsequence_fields());
            &&& bytes::u32_in(m, 0x2f5) == 1
            &&& m[0x2f9] == 0
            &&& m[0x2fa] == 0
            &&& m[0x2fb] == 0
        }),
{
    let fields = a.tiling_microsequence_fields();
    let base = bytes::zeros(0x300);
    assert(fields.len() == 52);
    reveal_with_fuel(bytes::clear_of, 3);
    bytes::lemma_low_half(base, fields, 50);
    bytes::lemma_field_byte(base, fields, 50, 0x2f9);
    bytes::lemma_field_byte(base, fields, 50, 0x2fa);
    bytes::lemma_field_byte(base, fields, 50, 0x2fb);
    assert((0x200000000000001u64 >> 32) & 0xff == 0) by (bit_vector);
    assert((0x200000000000001u64 >> 40) & 0xff == 0) by (bit_vector);
    assert((0x200000000000001u64 >> 48) & 0xff == 0) by (bit_vector);
}

/// The command that finishes shading counts one stage.
pub proof fn lemma_fragment_count(a: Addresses)
    ensures
        bytes::u32_in(bytes::image(0x380, a.fragment_microsequence_fields()), 0x2b4) == 1,
{
    let fields = a.fragment_microsequence_fields();
    assert(fields.len() == 59);
    reveal_with_fuel(bytes::clear_of, 15);
    bytes::lemma_low_half(bytes::zeros(0x380), fields, 45);
}

/// The word before the program that stores tiles, and before the partial one, is zero.
pub proof fn lemma_fragment_work_gaps(p: Parameters, a: Addresses, ratio_x: u32, ratio_y: u32)
    ensures
        ({
            let m = bytes::overlay(
                bytes::place(
                    bytes::zeros(0xcc0),
                    0x80,
                    bytes::image(0x600, render::register_fields(p.fragment_writes())),
                ),
                p.fragment_work_fields(a, ratio_x, ratio_y),
            );
            &&& bytes::u32_in(m, 0x9f8) == 0
            &&& bytes::u32_in(m, 0xa18) == 0
        }),
{
    let fields = p.fragment_work_fields(a, ratio_x, ratio_y);
    let base = fragment_registers_placed(p);
    assert(fields.len() == 83);
    reveal_with_fuel(bytes::clear_of, 13);
    assert(bytes::clear_of(fields, 52, 63, 0x9f8, 0x9fc));
    assert(bytes::clear_of(fields, 52, 73, 0x9f8, 0x9fc));
    assert(bytes::clear_of(fields, 52, 83, 0x9f8, 0x9fc));
    bytes::lemma_low_half(base, fields, 51);
    assert(bytes::clear_of(fields, 55, 65, 0xa18, 0xa1c));
    assert(bytes::clear_of(fields, 55, 75, 0xa18, 0xa1c));
    assert(bytes::clear_of(fields, 55, 83, 0xa18, 0xa1c));
    bytes::lemma_low_half(base, fields, 54);
}

/// A register table holds its writes in order, twelve bytes each: the number, then the value.
pub proof fn lemma_register_table(records: Seq<(u32, u64)>, i: int)
    requires
        0 <= i < records.len() <= 128,
    ensures
        bytes::u32_in(bytes::image(0x600, render::register_fields(records)), 12 * i) == records[i].0,
        bytes::u64_in(bytes::image(0x600, render::register_fields(records)), 12 * i + 4) == records[i].1,
{
    let fields = render::register_fields(records);
    let base = bytes::zeros(0x600);
    assert(fields[2 * i].offset == 12 * i && fields[2 * i + 1].offset == 12 * i + 4);
    assert forall|j: int| 2 * i < j < fields.len() implies fields[2 * i].offset + fields[2 * i].width <= (
    #[trigger] fields[j]).offset by {}
    assert forall|j: int| 2 * i + 1 < j < fields.len() implies fields[2 * i + 1].offset + fields[2 * i
        + 1].width <= (#[trigger] fields[j]).offset by {}
    assert(bytes::survives(fields, 2 * i));
    assert(bytes::survives(fields, 2 * i + 1));
    bytes::lemma_reads_back_u32(base, fields, 2 * i);
    bytes::lemma_reads_back_u64(base, fields, 2 * i + 1);
}

/// Behind its writes a register table is zero.
pub proof fn lemma_register_table_rest(records: Seq<(u32, u64)>, i: int)
    requires
        12 * records.len() <= i < 0x600,
    ensures
        bytes::image(0x600, render::register_fields(records))[i] == 0,
{
    let fields = render::register_fields(records);
    lemma_none_covers(fields, fields.len() as int, i);
    bytes::lemma_untouched(bytes::zeros(0x600), fields, i);
}

proof fn lemma_none_covers(fields: Seq<Field>, n: int, i: int)
    requires
        0 <= n <= fields.len(),
        forall|k: int| 0 <= k < fields.len() ==> !(#[trigger] fields[k]).covers(i),
    ensures
        !bytes::touched(fields, n, i),
    decreases n,
{
    if n > 0 {
        lemma_none_covers(fields, n - 1, i);
    }
}

/// The work of tiling holds its register writes from byte 0x40 on.
pub proof fn lemma_tiling_work_registers(p: Parameters, a: Addresses, i: int)
    requires
        0 <= i < 71,
    ensures
        ({
            let m = bytes::overlay(
                bytes::place(
                    bytes::zeros(0x940),
                    0x40,
                    bytes::image(0x600, render::register_fields(p.tiling_writes())),
                ),
                p.tiling_work_fields(a),
            );
            &&& bytes::u32_in(m, 0x40 + 12 * i) == p.tiling_writes()[i].0
            &&& bytes::u64_in(m, 0x44 + 12 * i) == p.tiling_writes()[i].1
        }),
{
    let base = tiling_registers_placed(p);
    let table = bytes::image(0x600, render::register_fields(p.tiling_writes()));
    let fields = p.tiling_work_fields(a);
    assert(p.tiling_writes().len() == 71);
    assert(fields.len() == 36);
    lemma_register_table(p.tiling_writes(), i);
    reveal_with_fuel(bytes::touched, 14);
    assert forall|j: int| 0x40 <= j < 0x640 implies !#[trigger] bytes::touched(fields, 36, j) by {
        assert(!bytes::touched(fields, 12, j));
        assert(!bytes::touched(fields, 24, j));
    }
    bytes::lemma_read_elsewhere(base, fields, 0x40 + 12 * i);
    bytes::lemma_read_elsewhere(base, fields, 0x44 + 12 * i);
    assert forall|j: int| 0 <= j < 0x600 implies base[0x40 + j] == #[trigger] table[j] by {}
    let o = 12 * i;
    assert(table[o] == base[0x40 + o] && table[o + 1] == base[0x41 + o] && table[o + 2] == base[0x42 + o]
        && table[o + 3] == base[0x43 + o] && table[o + 4] == base[0x44 + o] && table[o + 5] == base[0x45
        + o] && table[o + 6] == base[0x46 + o] && table[o + 7] == base[0x47 + o] && table[o + 8]
        == base[0x48 + o] && table[o + 9] == base[0x49 + o] && table[o + 10] == base[0x4a + o] && table[o
        + 11] == base[0x4b + o]);
}

/// The work of shading holds its register writes from byte 0x80 on.
pub proof fn lemma_fragment_work_registers(p: Parameters, a: Addresses, ratio_x: u32, ratio_y: u32, i: int)
    requires
        0 <= i < 87,
    ensures
        ({
            let m = bytes::overlay(
                bytes::place(
                    bytes::zeros(0xcc0),
                    0x80,
                    bytes::image(0x600, render::register_fields(p.fragment_writes())),
                ),
                p.fragment_work_fields(a, ratio_x, ratio_y),
            );
            &&& bytes::u32_in(m, 0x80 + 12 * i) == p.fragment_writes()[i].0
            &&& bytes::u64_in(m, 0x84 + 12 * i) == p.fragment_writes()[i].1
        }),
{
    let base = fragment_registers_placed(p);
    let table = bytes::image(0x600, render::register_fields(p.fragment_writes()));
    let fields = p.fragment_work_fields(a, ratio_x, ratio_y);
    assert(p.fragment_writes().len() == 87);
    assert(fields.len() == 83);
    lemma_register_table(p.fragment_writes(), i);
    reveal_with_fuel(bytes::touched, 14);
    assert forall|j: int| 0x80 <= j < 0x680 implies !#[trigger] bytes::touched(fields, 83, j) by {
        assert(!bytes::touched(fields, 12, j));
        assert(!bytes::touched(fields, 24, j));
        assert(!bytes::touched(fields, 36, j));
        assert(!bytes::touched(fields, 48, j));
        assert(!bytes::touched(fields, 60, j));
        assert(!bytes::touched(fields, 72, j));
    }
    bytes::lemma_read_elsewhere(base, fields, 0x80 + 12 * i);
    bytes::lemma_read_elsewhere(base, fields, 0x84 + 12 * i);
    assert forall|j: int| 0 <= j < 0x600 implies base[0x80 + j] == #[trigger] table[j] by {}
    let o = 12 * i;
    assert(table[o] == base[0x80 + o] && table[o + 1] == base[0x81 + o] && table[o + 2] == base[0x82 + o]
        && table[o + 3] == base[0x83 + o] && table[o + 4] == base[0x84 + o] && table[o + 5] == base[0x85
        + o] && table[o + 6] == base[0x86 + o] && table[o + 7] == base[0x87 + o] && table[o + 8]
        == base[0x88 + o] && table[o + 9] == base[0x89 + o] && table[o + 10] == base[0x8a + o] && table[o
        + 11] == base[0x8b + o]);
}

/// The firmware's own profiling of a render goes to the work itself, apart from the times of the client; all
/// else of both works is as it was encoded.
pub proof fn lemma_render_profiling(p: Parameters, a: Addresses, va: u64, ratio: (u32, u32), i: int)
    requires
        va + 0x118 <= u64::MAX,
    ensures
        ({
            let t = submit::tiling_image(p, a, va);
            let f = submit::fragment_image(p, a, va, ratio);
            let t0 = bytes::overlay(
                bytes::place(
                    bytes::zeros(0x940),
                    0x40,
                    bytes::image(0x600, render::register_fields(p.tiling_writes())),
                ),
                p.tiling_work_fields(a),
            );
            let f0 = bytes::overlay(
                bytes::place(
                    bytes::zeros(0xcc0),
                    0x80,
                    bytes::image(0x600, render::register_fields(p.fragment_writes())),
                ),
                p.fragment_work_fields(a, ratio.0, ratio.1),
            );
            &&& bytes::u64_in(t, 0x8c8) == va + 0x100
            &&& bytes::u64_in(t, 0x8d0) == va + 0x108
            &&& bytes::u64_in(f, 0xc10) == va + 0x110
            &&& bytes::u64_in(f, 0xc18) == va + 0x118
            &&& 0 <= i < 0x940 && !(0x8c8 <= i < 0x8d8) ==> t[i] == t0[i]
            &&& 0 <= i < 0xcc0 && !(0xc10 <= i < 0xc20) ==> f[i] == f0[i]
        }),
{
    reveal(submit::tiling_image);
    reveal(submit::fragment_image);
    reveal_with_fuel(bytes::held, 4);
    reveal_with_fuel(bytes::touched, 4);
    let t0 = bytes::overlay(tiling_registers_placed(p), p.tiling_work_fields(a));
    let f0 = bytes::overlay(fragment_registers_placed(p), p.fragment_work_fields(a, ratio.0, ratio.1));
    let x = seq![bytes::w64(0x8c8, (va + 0x100) as u64), bytes::w64(0x8d0, (va + 0x108) as u64)];
    let y = seq![bytes::w64(0xc10, (va + 0x110) as u64), bytes::w64(0xc18, (va + 0x118) as u64)];
    bytes::lemma_held_u64(t0, x, 0x8c8);
    bytes::lemma_held_u64(t0, x, 0x8d0);
    bytes::lemma_held_u64(f0, y, 0xc10);
    bytes::lemma_held_u64(f0, y, 0xc18);
    if 0 <= i < 0x940 && !(0x8c8 <= i < 0x8d8) {
        bytes::lemma_untouched(t0, x, i);
    }
    if 0 <= i < 0xcc0 && !(0xc10 <= i < 0xc20) {
        bytes::lemma_untouched(f0, y, i);
    }
}

/// What no part of a tiling work uses is zero.
pub proof fn lemma_tiling_work_rest(p: Parameters, a: Addresses, i: int)
    requires
        0 <= i < 0x940,
        !(0x40 <= i < 0x640),
        !(0 <= i < 0x38),
        !(0x740 <= i < 0x74c),
        !(0x760 <= i < 0x784),
        !(0x7a8 <= i < 0x7b0),
        !(0x840 <= i < 0x85c),
        !(0x864 <= i < 0x865),
        !(0x878 <= i < 0x890),
        !(0x898 <= i < 0x89c),
        !(0x8a0 <= i < 0x8a8),
        !(0x8c8 <= i < 0x8d0),
        !(0x8d8 <= i < 0x8e8),
        !(0x8ff <= i < 0x907),
        !(0x908 <= i < 0x918),
    ensures
        bytes::overlay(
            bytes::place(
                bytes::zeros(0x940),
                0x40,
                bytes::image(0x600, render::register_fields(p.tiling_writes())),
            ),
            p.tiling_work_fields(a),
        )[i] == 0,
{
    let fields = p.tiling_work_fields(a);
    assert(fields.len() == 36);
    reveal_with_fuel(bytes::touched, 14);
    assert(!bytes::touched(fields, 12, i));
    assert(!bytes::touched(fields, 24, i));
    assert(!bytes::touched(fields, 36, i));
    bytes::lemma_untouched(tiling_registers_placed(p), fields, i);
}

/// What no part of a shading work uses is zero.
pub proof fn lemma_fragment_work_rest(p: Parameters, a: Addresses, ratio_x: u32, ratio_y: u32, i: int)
    requires
        0 <= i < 0xcc0,
        !(0x80 <= i < 0x680),
        !(0 <= i < 0x58),
        !(0x68 <= i < 0x70),
        !(0x78 <= i < 0x80),
        !(0x680 <= i < 0x6a0),
        !(0x780 <= i < 0x78c),
        !(0x7a0 <= i < 0x7a8),
        !(0x7b0 <= i < 0x7b8),
        !(0x7c0 <= i < 0x7c8),
        !(0x8f8 <= i < 0x908),
        !(0x928 <= i < 0x944),
        !(0x948 <= i < 0x9a8),
        !(0x9b8 <= i < 0x9bc),
        !(0x9c0 <= i < 0x9e0),
        !(0x9f4 <= i < 0xa04),
        !(0xa14 <= i < 0xa24),
        !(0xa28 <= i < 0xa38),
        !(0xa50 <= i < 0xa58),
        !(0xb80 <= i < 0xb84),
        !(0xb88 <= i < 0xbb0),
        !(0xbc0 <= i < 0xbd8),
        !(0xbe0 <= i < 0xbe4),
        !(0xbe8 <= i < 0xbf0),
        !(0xc10 <= i < 0xc30),
        !(0xc47 <= i < 0xc4f),
        !(0xc50 <= i < 0xc60),
        !(0xc80 <= i < 0xc88),
    ensures
        bytes::overlay(
            bytes::place(
                bytes::zeros(0xcc0),
                0x80,
                bytes::image(0x600, render::register_fields(p.fragment_writes())),
            ),
            p.fragment_work_fields(a, ratio_x, ratio_y),
        )[i] == 0,
{
    let fields = p.fragment_work_fields(a, ratio_x, ratio_y);
    assert(fields.len() == 83);
    reveal_with_fuel(bytes::touched, 14);
    assert(!bytes::touched(fields, 12, i));
    assert(!bytes::touched(fields, 24, i));
    assert(!bytes::touched(fields, 36, i));
    assert(!bytes::touched(fields, 48, i));
    assert(!bytes::touched(fields, 60, i));
    assert(!bytes::touched(fields, 72, i));
    assert(!bytes::touched(fields, 83, i));
    bytes::lemma_untouched(fragment_registers_placed(p), fields, i);
}

} // verus!
