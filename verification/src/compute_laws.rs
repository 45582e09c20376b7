//! What the objects of a compute work say to those who read them.
use crate::bytes;
use crate::compute;
use crate::compute::{Addresses, Parameters};
use vstd::prelude::*;

verus! {

/// The command that finishes a compute stores its stamp where completion is waited for: at the address and
/// with the value of the receipt.
pub proof fn lemma_finish_stamps(p: Parameters, a: Addresses)
    requires
        a.work + 0x8ac <= u64::MAX,
        a.microsequence + 0x160 <= u64::MAX,
        p.scratch + 0x1f000 <= u64::MAX,
    ensures
        ({
            let m = bytes::image(0x300, p.microsequence_fields(a));
            &&& bytes::u32_in(m, 0x258) == 0xc
            &&& bytes::u32_in(m, 0x26c) == a.context
            &&& bytes::u32_in(m, 0x27c) == a.identity % 0x1_0000_0000
            &&& bytes::u32_in(m, 0x28c) == a.stamp
            &&& bytes::u64_in(m, 0x25c) == a.stats
            &&& bytes::u64_in(m, 0x264) == a.queue
            &&& bytes::u64_in(m, 0x270) == a.work + 0x76c
            &&& bytes::u64_in(m, 0x284) == a.firmware_stamp
        }),
{
    let fields = p.microsequence_fields(a);
    let base = bytes::zeros(0x300);
    assert(fields.len() == 48);
    reveal_with_fuel(bytes::held, 12);
    reveal_with_fuel(bytes::clear_of, 14);
    assert(bytes::clear_of(fields, 9, 21, 0x258, 0x25c));
    assert(bytes::clear_of(fields, 9, 33, 0x258, 0x25c));
    assert(bytes::clear_of(fields, 9, 45, 0x258, 0x25c));
    assert(bytes::clear_of(fields, 9, 48, 0x258, 0x25c));
    bytes::lemma_clear_of(fields, 9, 48, 0x258, 0x25c);
    bytes::lemma_held_u32(base, fields, 0x258);
    assert(bytes::clear_of(fields, 10, 22, 0x26c, 0x270));
    assert(bytes::clear_of(fields, 10, 34, 0x26c, 0x270));
    assert(bytes::clear_of(fields, 10, 46, 0x26c, 0x270));
    assert(bytes::clear_of(fields, 10, 48, 0x26c, 0x270));
    bytes::lemma_clear_of(fields, 10, 48, 0x26c, 0x270);
    bytes::lemma_held_u32(base, fields, 0x26c);
    assert(bytes::clear_of(fields, 11, 23, 0x27c, 0x280));
    assert(bytes::clear_of(fields, 11, 35, 0x27c, 0x280));
    assert(bytes::clear_of(fields, 11, 47, 0x27c, 0x280));
    assert(bytes::clear_of(fields, 11, 48, 0x27c, 0x280));
    bytes::lemma_clear_of(fields, 11, 48, 0x27c, 0x280);
    bytes::lemma_held_u32(base, fields, 0x27c);
    assert(bytes::clear_of(fields, 12, 24, 0x28c, 0x290));
    assert(bytes::clear_of(fields, 12, 36, 0x28c, 0x290));
    assert(bytes::clear_of(fields, 12, 48, 0x28c, 0x290));
    bytes::lemma_clear_of(fields, 12, 48, 0x28c, 0x290);
    bytes::lemma_held_u32(base, fields, 0x28c);
    assert(bytes::clear_of(fields, 29, 41, 0x25c, 0x28c));
    assert(bytes::clear_of(fields, 29, 48, 0x25c, 0x28c));
    bytes::lemma_clear_of(fields, 29, 48, 0x25c, 0x28c);
    bytes::lemma_held_u64(base, fields, 0x25c);
    bytes::lemma_held_u64(base, fields, 0x264);
    bytes::lemma_held_u64(base, fields, 0x270);
    bytes::lemma_held_u64(base, fields, 0x284);
}

/// The command that starts a compute names the register table of its work, its queue, its context and its
/// own identity.
pub proof fn lemma_start_links(p: Parameters, a: Addresses)
    requires
        a.work + 0x8ac <= u64::MAX,
        a.microsequence + 0x160 <= u64::MAX,
        p.scratch + 0x1f000 <= u64::MAX,
    ensures
        ({
            let m = bytes::image(0x300, p.microsequence_fields(a));
            &&& bytes::u32_in(m, 0) == 0xb
            &&& bytes::u32_in(m, 0x2c) == a.context
            &&& bytes::u32_in(m, 0x30) == 1
            &&& bytes::u32_in(m, 0x34) == a.event_generation
            &&& bytes::u32_in(m, 0x50) == a.identity % 0x1_0000_0000
            &&& bytes::u32_in(m, 0x1b0) == a.counter % 0x1_0000_0000
            &&& bytes::u32_in(m, 0x1b8) == a.event
            &&& bytes::u64_in(m, 0x14) == a.work + 0x20
            &&& bytes::u64_in(m, 0x1c) == a.stats
            &&& bytes::u64_in(m, 0x24) == a.queue
            &&& bytes::u64_in(m, 0x44) == a.work + 0x76c
            &&& bytes::u64_in(m, 0x160) == a.support
        }),
{
    let fields = p.microsequence_fields(a);
    let base = bytes::zeros(0x300);
    assert(fields.len() == 48);
    reveal_with_fuel(bytes::held, 12);
    reveal_with_fuel(bytes::clear_of, 14);
    assert(bytes::clear_of(fields, 1, 13, 0, 4));
    assert(bytes::clear_of(fields, 1, 25, 0, 4));
    assert(bytes::clear_of(fields, 1, 37, 0, 4));
    assert(bytes::clear_of(fields, 1, 48, 0, 4));
    bytes::lemma_clear_of(fields, 1, 48, 0, 4);
    bytes::lemma_held_u32(base, fields, 0);
    assert(bytes::clear_of(fields, 4, 16, 0x2c, 0x38));
    assert(bytes::clear_of(fields, 4, 28, 0x2c, 0x38));
    assert(bytes::clear_of(fields, 4, 40, 0x2c, 0x38));
    assert(bytes::clear_of(fields, 4, 48, 0x2c, 0x38));
    bytes::lemma_clear_of(fields, 4, 48, 0x2c, 0x38);
    bytes::lemma_held_u32(base, fields, 0x2c);
    bytes::lemma_held_u32(base, fields, 0x30);
    bytes::lemma_held_u32(base, fields, 0x34);
    assert(bytes::clear_of(fields, 5, 17, 0x50, 0x54));
    assert(bytes::clear_of(fields, 5, 29, 0x50, 0x54));
    assert(bytes::clear_of(fields, 5, 41, 0x50, 0x54));
    assert(bytes::clear_of(fields, 5, 48, 0x50, 0x54));
    bytes::lemma_clear_of(fields, 5, 48, 0x50, 0x54);
    bytes::lemma_held_u32(base, fields, 0x50);
    assert(bytes::clear_of(fields, 7, 19, 0x1b0, 0x1bc));
    assert(bytes::clear_of(fields, 7, 31, 0x1b0, 0x1bc));
    assert(bytes::clear_of(fields, 7, 43, 0x1b0, 0x1bc));
    assert(bytes::clear_of(fields, 7, 48, 0x1b0, 0x1bc));
    bytes::lemma_clear_of(fields, 7, 48, 0x1b0, 0x1bc);
    bytes::lemma_held_u32(base, fields, 0x1b0);
    bytes::lemma_held_u32(base, fields, 0x1b8);
    assert(bytes::clear_of(fields, 19, 31, 0x14, 0x168));
    assert(bytes::clear_of(fields, 19, 43, 0x14, 0x168));
    assert(bytes::clear_of(fields, 19, 48, 0x14, 0x168));
    bytes::lemma_clear_of(fields, 19, 48, 0x14, 0x168);
    bytes::lemma_held_u64(base, fields, 0x14);
    bytes::lemma_held_u64(base, fields, 0x1c);
    bytes::lemma_held_u64(base, fields, 0x24);
    bytes::lemma_held_u64(base, fields, 0x44);
    bytes::lemma_held_u64(base, fields, 0x160);
}

/// A compute runs on the marker and the scratch area of its parameters: the area is divided where the
/// hardware expects it.
pub proof fn lemma_start_storage(p: Parameters, a: Addresses)
    requires
        a.work + 0x8ac <= u64::MAX,
        a.microsequence + 0x160 <= u64::MAX,
        p.scratch + 0x1f000 <= u64::MAX,
    ensures
        ({
            let m = bytes::image(0x300, p.microsequence_fields(a));
            &&& bytes::u64_in(m, 0x178) == p.marker
            &&& bytes::u64_in(m, 0x188) == p.scratch
            &&& bytes::u64_in(m, 0x190) == p.scratch + 0xf400
            &&& bytes::u64_in(m, 0x198) == p.scratch + 0x1e800
            &&& bytes::u64_in(m, 0x1a0) == p.scratch + 0x1f000
            &&& bytes::u64_in(m, 0x1a8) == a.work + 0x8ac
        }),
{
    let fields = p.microsequence_fields(a);
    let base = bytes::zeros(0x300);
    assert(fields.len() == 48);
    reveal_with_fuel(bytes::held, 12);
    reveal_with_fuel(bytes::clear_of, 14);
    assert(bytes::clear_of(fields, 25, 37, 0x178, 0x1b0));
    assert(bytes::clear_of(fields, 25, 48, 0x178, 0x1b0));
    bytes::lemma_clear_of(fields, 25, 48, 0x178, 0x1b0);
    bytes::lemma_held_u64(base, fields, 0x178);
    bytes::lemma_held_u64(base, fields, 0x188);
    bytes::lemma_held_u64(base, fields, 0x190);
    bytes::lemma_held_u64(base, fields, 0x198);
    bytes::lemma_held_u64(base, fields, 0x1a0);
    bytes::lemma_held_u64(base, fields, 0x1a8);
}

/// The first timestamp command stores into the work, for the queue and the identity of the compute.
pub proof fn lemma_first_timestamp(p: Parameters, a: Addresses)
    requires
        a.work + 0x8ac <= u64::MAX,
        a.microsequence + 0x160 <= u64::MAX,
        p.scratch + 0x1f000 <= u64::MAX,
    ensures
        ({
            let m = bytes::image(0x300, p.microsequence_fields(a));
            &&& bytes::u32_in(m, 0x1bc) == 0x8000_0003
            &&& bytes::u64_in(m, 0x1c0) == a.work + 0x82c
            &&& bytes::u64_in(m, 0x1c8) == a.work + 0x834
            &&& bytes::u64_in(m, 0x1d0) == a.work + 0x834
            &&& bytes::u64_in(m, 0x1d8) == a.queue
            &&& bytes::u64_in(m, 0x1e8) == a.work + 0x89c
            &&& bytes::u64_in(m, 0x1f0) == a.work + 0x7dc
            &&& bytes::u32_in(m, 0x200) == a.identity % 0x1_0000_0000
        }),
{
    let fields = p.microsequence_fields(a);
    let base = bytes::zeros(0x300);
    assert(fields.len() == 48);
    reveal_with_fuel(bytes::held, 12);
    reveal_with_fuel(bytes::clear_of, 14);
    assert(bytes::clear_of(fields, 40, 48, 0x1bc, 0x204));
    bytes::lemma_clear_of(fields, 40, 48, 0x1bc, 0x204);
    bytes::lemma_held_u32(base, fields, 0x1bc);
    bytes::lemma_held_u64(base, fields, 0x1c0);
    bytes::lemma_held_u64(base, fields, 0x1c8);
    bytes::lemma_held_u64(base, fields, 0x1d0);
    bytes::lemma_held_u64(base, fields, 0x1d8);
    bytes::lemma_held_u64(base, fields, 0x1e8);
    bytes::lemma_held_u64(base, fields, 0x1f0);
    bytes::lemma_held_u32(base, fields, 0x200);
}

/// The second timestamp command differs from the first in its mark, and stores behind it.
pub proof fn lemma_second_timestamp(p: Parameters, a: Addresses)
    requires
        a.work + 0x8ac <= u64::MAX,
        a.microsequence + 0x160 <= u64::MAX,
        p.scratch + 0x1f000 <= u64::MAX,
    ensures
        ({
            let m = bytes::image(0x300, p.microsequence_fields(a));
            &&& bytes::u32_in(m, 0x208) == 1
            &&& bytes::u32_in(m, 0x20c) == 3
            &&& bytes::u64_in(m, 0x210) == a.work + 0x82c
            &&& bytes::u64_in(m, 0x218) == a.work + 0x834
            &&& bytes::u64_in(m, 0x220) == a.work + 0x83c
            &&& bytes::u64_in(m, 0x228) == a.queue
            &&& bytes::u64_in(m, 0x238) == a.work + 0x89c
            &&& bytes::u64_in(m, 0x240) == a.work + 0x7dc
            &&& bytes::u32_in(m, 0x250) == a.identity % 0x1_0000_0000
        }),
{
    let fields = p.microsequence_fields(a);
    let base = bytes::zeros(0x300);
    assert(fields.len() == 48);
    reveal_with_fuel(bytes::held, 12);
    reveal_with_fuel(bytes::clear_of, 14);
    assert(bytes::clear_of(fields, 8, 20, 0x208, 0x20c));
    assert(bytes::clear_of(fields, 8, 32, 0x208, 0x20c));
    assert(bytes::clear_of(fields, 8, 44, 0x208, 0x20c));
    assert(bytes::clear_of(fields, 8, 48, 0x208, 0x20c));
    bytes::lemma_clear_of(fields, 8, 48, 0x208, 0x20c);
    bytes::lemma_held_u32(base, fields, 0x208);
    bytes::lemma_held_u32(base, fields, 0x20c);
    bytes::lemma_held_u64(base, fields, 0x210);
    bytes::lemma_held_u64(base, fields, 0x218);
    bytes::lemma_held_u64(base, fields, 0x220);
    bytes::lemma_held_u64(base, fields, 0x228);
    bytes::lemma_held_u64(base, fields, 0x238);
    bytes::lemma_held_u64(base, fields, 0x240);
    bytes::lemma_held_u32(base, fields, 0x250);
}

/// The end of a microsequence leads back to its start command, and closes the work.
pub proof fn lemma_closing_links(p: Parameters, a: Addresses)
    requires
        a.work + 0x8ac <= u64::MAX,
        a.microsequence + 0x160 <= u64::MAX,
        p.scratch + 0x1f000 <= u64::MAX,
    ensures
        ({
            let m = bytes::image(0x300, p.microsequence_fields(a));
            &&& bytes::u32_in(m, 0x2bc) == 0xfffffda8
            &&& bytes::u32_in(m, 0x2d4) == 0x4000_0002
            &&& bytes::u64_in(m, 0x2b4) == a.microsequence + 0x160
            &&& bytes::u64_in(m, 0x2c1) == a.work + 0x8ac
            &&& bytes::u64_in(m, 0x2c9) == a.work + 0x88c
        }),
{
    let fields = p.microsequence_fields(a);
    let base = bytes::zeros(0x300);
    assert(fields.len() == 48);
    reveal_with_fuel(bytes::held, 12);
    reveal_with_fuel(bytes::clear_of, 14);
    assert(bytes::clear_of(fields, 13, 25, 0x2bc, 0x2c0));
    assert(bytes::clear_of(fields, 13, 37, 0x2bc, 0x2c0));
    assert(bytes::clear_of(fields, 13, 48, 0x2bc, 0x2c0));
    bytes::lemma_clear_of(fields, 13, 48, 0x2bc, 0x2c0);
    bytes::lemma_held_u32(base, fields, 0x2bc);
    assert(bytes::clear_of(fields, 14, 26, 0x2d4, 0x2d8));
    assert(bytes::clear_of(fields, 14, 38, 0x2d4, 0x2d8));
    assert(bytes::clear_of(fields, 14, 48, 0x2d4, 0x2d8));
    bytes::lemma_clear_of(fields, 14, 48, 0x2d4, 0x2d8);
    bytes::lemma_held_u32(base, fields, 0x2d4);
    assert(bytes::clear_of(fields, 32, 44, 0x2b4, 0x2d1));
    assert(bytes::clear_of(fields, 32, 48, 0x2b4, 0x2d1));
    bytes::lemma_clear_of(fields, 32, 48, 0x2b4, 0x2d1);
    bytes::lemma_held_u64(base, fields, 0x2b4);
    bytes::lemma_held_u64(base, fields, 0x2c1);
    bytes::lemma_held_u64(base, fields, 0x2c9);
}

/// What no command of a microsequence uses is zero.
pub proof fn lemma_microsequence_rest(p: Parameters, a: Addresses, i: int)
    requires
        0 <= i < 0x300,
        !(0 <= i < 4),
        !(0x14 <= i < 0x38),
        !(0x44 <= i < 0x4c),
        !(0x50 <= i < 0x54),
        !(0x160 <= i < 0x168),
        !(0x178 <= i < 0x180),
        !(0x188 <= i < 0x1b4),
        !(0x1b8 <= i < 0x1e0),
        !(0x1e8 <= i < 0x1f8),
        !(0x200 <= i < 0x204),
        !(0x208 <= i < 0x230),
        !(0x238 <= i < 0x248),
        !(0x250 <= i < 0x254),
        !(0x258 <= i < 0x278),
        !(0x27c <= i < 0x280),
        !(0x284 <= i < 0x290),
        !(0x2b4 <= i < 0x2c0),
        !(0x2c1 <= i < 0x2d1),
        !(0x2d4 <= i < 0x2d8),
    ensures
        bytes::image(0x300, p.microsequence_fields(a))[i] == 0,
{
    let fields = p.microsequence_fields(a);
    assert(fields.len() == 48);
    reveal_with_fuel(bytes::touched, 14);
    assert(!bytes::touched(fields, 12, i));
    assert(!bytes::touched(fields, 24, i));
    assert(!bytes::touched(fields, 36, i));
    assert(!bytes::touched(fields, 48, i));
    bytes::lemma_untouched(bytes::zeros(0x300), fields, i);
}

/// A work starts with its kind, its number, its context and the notifier that is raised at its end.
pub proof fn lemma_work_head(p: Parameters, a: Addresses)
    requires
        p.is_valid(),
        p.resource + 0x1498 <= u64::MAX,
    ensures
        ({
            let m = bytes::image(0x8c0, p.work_fields(a));
            &&& bytes::u32_in(m, 0) == 3
            &&& bytes::u64_in(m, 4) == a.counter
            &&& bytes::u32_in(m, 12) == a.context
            &&& bytes::u64_in(m, 16) == a.notifier
        }),
{
    let fields = p.work_fields(a);
    let base = bytes::zeros(0x8c0);
    assert(fields.len() == 78);
    reveal_with_fuel(bytes::held, 12);
    reveal_with_fuel(bytes::clear_of, 14);
    assert(bytes::clear_of(fields, 4, 16, 0, 0x18));
    assert(bytes::clear_of(fields, 4, 28, 0, 0x18));
    assert(bytes::clear_of(fields, 4, 40, 0, 0x18));
    assert(bytes::clear_of(fields, 4, 52, 0, 0x18));
    assert(bytes::clear_of(fields, 4, 64, 0, 0x18));
    assert(bytes::clear_of(fields, 4, 76, 0, 0x18));
    assert(bytes::clear_of(fields, 4, 78, 0, 0x18));
    bytes::lemma_clear_of(fields, 4, 78, 0, 0x18);
    bytes::lemma_held_u32(base, fields, 0);
    bytes::lemma_held_u64(base, fields, 4);
    bytes::lemma_held_u32(base, fields, 12);
    bytes::lemma_held_u64(base, fields, 16);
}

/// The registers of a work lead to its command stream, and to its resources.
pub proof fn lemma_work_streams(p: Parameters, a: Addresses)
    requires
        p.is_valid(),
        p.resource + 0x1498 <= u64::MAX,
    ensures
        ({
            let m = bytes::image(0x8c0, p.work_fields(a));
            &&& bytes::u32_in(m, 0x20) == 0x1a510
            &&& bytes::u64_in(m, 0x24) == p.resource
            &&& bytes::u32_in(m, 0x2c) == 0x1a420
            &&& bytes::u64_in(m, 0x30) == (match a.cdm_entry { Some(entry) => entry, None => p.cdm })
            &&& bytes::u32_in(m, 0x38) == 0x1a4d0
            &&& bytes::u64_in(m, 0x3c) == p.resource + 0x1480
            &&& bytes::u32_in(m, 0x44) == 0x1a4d8
            &&& bytes::u64_in(m, 0x48) == p.resource + 0x1488
            &&& bytes::u32_in(m, 0x50) == 0x1a4e0
            &&& bytes::u64_in(m, 0x54) == p.resource + 0x1490
            &&& bytes::u32_in(m, 0x5c) == 0x1a4e8
            &&& bytes::u64_in(m, 0x60) == p.resource + 0x1498
            &&& bytes::u32_in(m, 0x68) == 0x1a440
            &&& bytes::u64_in(m, 0x6c) == 0x1_5402_4201
            &&& bytes::u32_in(m, 0x74) == 0x1a458
            &&& bytes::u64_in(m, 0x78) == 0x10c0_8ae0
        }),
{
    let fields = p.work_fields(a);
    let base = bytes::zeros(0x8c0);
    assert(fields.len() == 78);
    reveal_with_fuel(bytes::held, 12);
    reveal_with_fuel(bytes::clear_of, 14);
    assert(bytes::clear_of(fields, 14, 26, 0x20, 0x5c));
    assert(bytes::clear_of(fields, 14, 38, 0x20, 0x5c));
    assert(bytes::clear_of(fields, 14, 50, 0x20, 0x5c));
    assert(bytes::clear_of(fields, 14, 62, 0x20, 0x5c));
    assert(bytes::clear_of(fields, 14, 74, 0x20, 0x5c));
    assert(bytes::clear_of(fields, 14, 78, 0x20, 0x5c));
    bytes::lemma_clear_of(fields, 14, 78, 0x20, 0x5c);
    bytes::lemma_held_u32(base, fields, 0x20);
    bytes::lemma_held_u64(base, fields, 0x24);
    bytes::lemma_held_u32(base, fields, 0x2c);
    bytes::lemma_held_u64(base, fields, 0x30);
    bytes::lemma_held_u32(base, fields, 0x38);
    bytes::lemma_held_u64(base, fields, 0x3c);
    bytes::lemma_held_u32(base, fields, 0x44);
    bytes::lemma_held_u64(base, fields, 0x48);
    bytes::lemma_held_u32(base, fields, 0x50);
    bytes::lemma_held_u64(base, fields, 0x54);
    assert(bytes::clear_of(fields, 20, 32, 0x5c, 0x80));
    assert(bytes::clear_of(fields, 20, 44, 0x5c, 0x80));
    assert(bytes::clear_of(fields, 20, 56, 0x5c, 0x80));
    assert(bytes::clear_of(fields, 20, 68, 0x5c, 0x80));
    assert(bytes::clear_of(fields, 20, 78, 0x5c, 0x80));
    bytes::lemma_clear_of(fields, 20, 78, 0x5c, 0x80);
    bytes::lemma_held_u32(base, fields, 0x5c);
    bytes::lemma_held_u64(base, fields, 0x60);
    bytes::lemma_held_u32(base, fields, 0x68);
    bytes::lemma_held_u64(base, fields, 0x6c);
    bytes::lemma_held_u32(base, fields, 0x74);
    bytes::lemma_held_u64(base, fields, 0x78);
}

/// The registers that every work sets alike.
pub proof fn lemma_work_state(p: Parameters, a: Addresses)
    requires
        p.is_valid(),
        p.resource + 0x1498 <= u64::MAX,
    ensures
        ({
            let m = bytes::image(0x8c0, p.work_fields(a));
            &&& bytes::u32_in(m, 0x80) == 0x101d9
            &&& bytes::u64_in(m, 0x84) == 0x1c
            &&& bytes::u32_in(m, 0x8c) == 0x1a089
            &&& bytes::u64_in(m, 0x90) == 0
            &&& bytes::u32_in(m, 0x98) == 0x1a091
            &&& bytes::u64_in(m, 0x9c) == 0
            &&& bytes::u32_in(m, 0xa4) == 0x1a059
            &&& bytes::u64_in(m, 0xa8) == 0
            &&& bytes::u32_in(m, 0xb0) == 0x1a061
            &&& bytes::u64_in(m, 0xb4) == 0
            &&& bytes::u32_in(m, 0xbc) == 0x1a0b9
            &&& bytes::u64_in(m, 0xc0) == 0
            &&& bytes::u32_in(m, 0xc8) == 0x1a0c1
            &&& bytes::u64_in(m, 0xcc) == 0
            &&& bytes::u32_in(m, 0xd4) == 0x101d1
            &&& bytes::u64_in(m, 0xd8) == 0
            &&& bytes::u32_in(m, 0xe0) == 0xd479
            &&& bytes::u64_in(m, 0xe4) == 0
            &&& bytes::u32_in(m, 0xec) == 0x1a0e9
            &&& bytes::u64_in(m, 0xf0) == 8
        }),
{
    let fields = p.work_fields(a);
    let base = bytes::zeros(0x8c0);
    assert(fields.len() == 78);
    reveal_with_fuel(bytes::held, 12);
    reveal_with_fuel(bytes::clear_of, 14);
    assert(bytes::clear_of(fields, 30, 42, 0x80, 0xbc));
    assert(bytes::clear_of(fields, 30, 54, 0x80, 0xbc));
    assert(bytes::clear_of(fields, 30, 66, 0x80, 0xbc));
    assert(bytes::clear_of(fields, 30, 78, 0x80, 0xbc));
    bytes::lemma_clear_of(fields, 30, 78, 0x80, 0xbc);
    bytes::lemma_held_u32(base, fields, 0x80);
    bytes::lemma_held_u64(base, fields, 0x84);
    bytes::lemma_held_u32(base, fields, 0x8c);
    bytes::lemma_held_u64(base, fields, 0x90);
    bytes::lemma_held_u32(base, fields, 0x98);
    bytes::lemma_held_u64(base, fields, 0x9c);
    bytes::lemma_held_u32(base, fields, 0xa4);
    bytes::lemma_held_u64(base, fields, 0xa8);
    bytes::lemma_held_u32(base, fields, 0xb0);
    bytes::lemma_held_u64(base, fields, 0xb4);
    assert(bytes::clear_of(fields, 40, 52, 0xbc, 0xf8));
    assert(bytes::clear_of(fields, 40, 64, 0xbc, 0xf8));
    assert(bytes::clear_of(fields, 40, 76, 0xbc, 0xf8));
    assert(bytes::clear_of(fields, 40, 78, 0xbc, 0xf8));
    bytes::lemma_clear_of(fields, 40, 78, 0xbc, 0xf8);
    bytes::lemma_held_u32(base, fields, 0xbc);
    bytes::lemma_held_u64(base, fields, 0xc0);
    bytes::lemma_held_u32(base, fields, 0xc8);
    bytes::lemma_held_u64(base, fields, 0xcc);
    bytes::lemma_held_u32(base, fields, 0xd4);
    bytes::lemma_held_u64(base, fields, 0xd8);
    bytes::lemma_held_u32(base, fields, 0xe0);
    bytes::lemma_held_u64(base, fields, 0xe4);
    bytes::lemma_held_u32(base, fields, 0xec);
    bytes::lemma_held_u64(base, fields, 0xf0);
}

/// The registers that tell a work apart hold its identity.
pub proof fn lemma_work_identity(p: Parameters, a: Addresses)
    requires
        p.is_valid(),
        p.resource + 0x1498 <= u64::MAX,
    ensures
        ({
            let m = bytes::image(0x8c0, p.work_fields(a));
            &&& bytes::u32_in(m, 0xf8) == 0x107a1
            &&& bytes::u64_in(m, 0xfc) == 0x00ff_0000
            &&& bytes::u32_in(m, 0x104) == 0xa599
            &&& bytes::u64_in(m, 0x108) == 0x200_0040_0020
            &&& bytes::u32_in(m, 0x110) == 0xd411
            &&& bytes::u64_in(m, 0x114) == 0x2_0000_0001
            &&& bytes::u32_in(m, 0x11c) == 0x1a540
            &&& bytes::u64_in(m, 0x120) == a.register_identity
            &&& bytes::u32_in(m, 0x128) == 0x14a9
            &&& bytes::u64_in(m, 0x12c) == a.register_identity
            &&& bytes::u32_in(m, 0x134) == 0xa351
            &&& bytes::u64_in(m, 0x138) == a.register_identity
        }),
{
    let fields = p.work_fields(a);
    let base = bytes::zeros(0x8c0);
    assert(fields.len() == 78);
    reveal_with_fuel(bytes::held, 12);
    reveal_with_fuel(bytes::clear_of, 14);
    assert(bytes::clear_of(fields, 50, 62, 0xf8, 0x134));
    assert(bytes::clear_of(fields, 50, 74, 0xf8, 0x134));
    assert(bytes::clear_of(fields, 50, 78, 0xf8, 0x134));
    bytes::lemma_clear_of(fields, 50, 78, 0xf8, 0x134);
    bytes::lemma_held_u32(base, fields, 0xf8);
    bytes::lemma_held_u64(base, fields, 0xfc);
    bytes::lemma_held_u32(base, fields, 0x104);
    bytes::lemma_held_u64(base, fields, 0x108);
    bytes::lemma_held_u32(base, fields, 0x110);
    bytes::lemma_held_u64(base, fields, 0x114);
    bytes::lemma_held_u32(base, fields, 0x11c);
    bytes::lemma_held_u64(base, fields, 0x120);
    bytes::lemma_held_u32(base, fields, 0x128);
    bytes::lemma_held_u64(base, fields, 0x12c);
    assert(bytes::clear_of(fields, 52, 64, 0x134, 0x140));
    assert(bytes::clear_of(fields, 52, 76, 0x134, 0x140));
    assert(bytes::clear_of(fields, 52, 78, 0x134, 0x140));
    bytes::lemma_clear_of(fields, 52, 78, 0x134, 0x140);
    bytes::lemma_held_u32(base, fields, 0x134);
    bytes::lemma_held_u64(base, fields, 0x138);
}

/// A work names its register table with the size of it, its microsequence with the size of that, and the
/// place of its resources.
pub proof fn lemma_work_links(p: Parameters, a: Addresses)
    requires
        p.is_valid(),
        p.resource + 0x1498 <= u64::MAX,
    ensures
        ({
            let m = bytes::image(0x8c0, p.work_fields(a));
            &&& bytes::u64_in(m, 0x720) == a.register_table
            &&& bytes::u64_in(m, 0x760) == a.microsequence
            &&& bytes::u64_in(m, 0x798) == p.resource
            &&& bytes::u64_in(m, 0x7a0) == p.cdm_end - 4
            &&& bytes::u64_in(m, 0x86a) == a.support
            &&& bytes::u64_in(m, 0x883) == 0
            &&& bytes::u32_in(m, 0x728) == 0x1200018
            &&& bytes::u32_in(m, 0x768) == 0x300
            &&& bytes::u32_in(m, 0x7c8) == 0x5402_4201
            &&& bytes::u32_in(m, 0x7cc) == 1
            &&& bytes::u32_in(m, 0x7e0) == a.identity / 0x1_0000_0000
            &&& bytes::u32_in(m, 0x874) == 0x21b00
            &&& bytes::u32_in(m, 0x87c) == 0x11700
            &&& m[0x872] == 1
        }),
{
    let fields = p.work_fields(a);
    let base = bytes::zeros(0x8c0);
    assert(fields.len() == 78);
    reveal_with_fuel(bytes::held, 12);
    reveal_with_fuel(bytes::clear_of, 14);
    assert(bytes::clear_of(fields, 53, 65, 0x720, 0x728));
    assert(bytes::clear_of(fields, 53, 77, 0x720, 0x728));
    assert(bytes::clear_of(fields, 53, 78, 0x720, 0x728));
    bytes::lemma_clear_of(fields, 53, 78, 0x720, 0x728);
    bytes::lemma_held_u64(base, fields, 0x720);
    assert(bytes::clear_of(fields, 54, 66, 0x760, 0x768));
    assert(bytes::clear_of(fields, 54, 78, 0x760, 0x768));
    bytes::lemma_clear_of(fields, 54, 78, 0x760, 0x768);
    bytes::lemma_held_u64(base, fields, 0x760);
    assert(bytes::clear_of(fields, 56, 68, 0x798, 0x7a8));
    assert(bytes::clear_of(fields, 56, 78, 0x798, 0x7a8));
    bytes::lemma_clear_of(fields, 56, 78, 0x798, 0x7a8);
    bytes::lemma_held_u64(base, fields, 0x798);
    bytes::lemma_held_u64(base, fields, 0x7a0);
    assert(bytes::clear_of(fields, 62, 74, 0x86a, 0x872));
    assert(bytes::clear_of(fields, 62, 78, 0x86a, 0x872));
    bytes::lemma_clear_of(fields, 62, 78, 0x86a, 0x872);
    bytes::lemma_held_u64(base, fields, 0x86a);
    assert(bytes::clear_of(fields, 63, 75, 0x883, 0x88b));
    assert(bytes::clear_of(fields, 63, 78, 0x883, 0x88b));
    bytes::lemma_clear_of(fields, 63, 78, 0x883, 0x88b);
    bytes::lemma_held_u64(base, fields, 0x883);
    assert(bytes::clear_of(fields, 68, 78, 0x728, 0x7e4));
    bytes::lemma_clear_of(fields, 68, 78, 0x728, 0x7e4);
    bytes::lemma_held_u32(base, fields, 0x728);
    bytes::lemma_held_u32(base, fields, 0x768);
    bytes::lemma_held_u32(base, fields, 0x7c8);
    bytes::lemma_held_u32(base, fields, 0x7cc);
    bytes::lemma_held_u32(base, fields, 0x7e0);
    assert(bytes::clear_of(fields, 77, 78, 0x872, 0x880));
    bytes::lemma_clear_of(fields, 77, 78, 0x872, 0x880);
    bytes::lemma_held_u32(base, fields, 0x874);
    bytes::lemma_held_u32(base, fields, 0x87c);
    bytes::lemma_held_u8(base, fields, 0x872);
}

/// A work names the samplers of the command, and how many there are.
pub proof fn lemma_work_samplers(p: Parameters, a: Addresses)
    requires
        p.is_valid(),
        p.resource + 0x1498 <= u64::MAX,
    ensures
        ({
            let m = bytes::image(0x8c0, p.work_fields(a));
            &&& bytes::u64_in(m, 0x7e8) == (if p.sampler_count == 0 { 0xffff_ffff } else { p.sampler })
            &&& bytes::u32_in(m, 0x7f0) == p.sampler_count
            &&& bytes::u32_in(m, 0x7f4) == (if p.sampler_count == 0 { 0int } else { p.sampler_count + 1 })
        }),
{
    let fields = p.work_fields(a);
    let base = bytes::zeros(0x8c0);
    assert(fields.len() == 78);
    reveal_with_fuel(bytes::held, 12);
    reveal_with_fuel(bytes::clear_of, 14);
    assert(bytes::clear_of(fields, 57, 69, 0x7e8, 0x7f0));
    assert(bytes::clear_of(fields, 57, 78, 0x7e8, 0x7f0));
    bytes::lemma_clear_of(fields, 57, 78, 0x7e8, 0x7f0);
    bytes::lemma_held_u64(base, fields, 0x7e8);
    assert(bytes::clear_of(fields, 70, 78, 0x7f0, 0x7f8));
    bytes::lemma_clear_of(fields, 70, 78, 0x7f0, 0x7f8);
    bytes::lemma_held_u32(base, fields, 0x7f0);
    bytes::lemma_held_u32(base, fields, 0x7f4);
}

/// A work names both addresses of its stamp, the value, and the event that goes with it.
pub proof fn lemma_work_stamps(p: Parameters, a: Addresses)
    requires
        p.is_valid(),
        p.resource + 0x1498 <= u64::MAX,
    ensures
        ({
            let m = bytes::image(0x8c0, p.work_fields(a));
            &&& bytes::u64_in(m, 0x800) == a.driver_stamp
            &&& bytes::u64_in(m, 0x808) == a.firmware_stamp
            &&& bytes::u32_in(m, 0x810) == a.stamp
            &&& bytes::u32_in(m, 0x814) == a.event
            &&& bytes::u32_in(m, 0x820) == a.identity % 0x1_0000_0000
            &&& bytes::u32_in(m, 0x828) == a.ordinal
        }),
{
    let fields = p.work_fields(a);
    let base = bytes::zeros(0x8c0);
    assert(fields.len() == 78);
    reveal_with_fuel(bytes::held, 12);
    reveal_with_fuel(bytes::clear_of, 14);
    assert(bytes::clear_of(fields, 59, 71, 0x800, 0x810));
    assert(bytes::clear_of(fields, 59, 78, 0x800, 0x810));
    bytes::lemma_clear_of(fields, 59, 78, 0x800, 0x810);
    bytes::lemma_held_u64(base, fields, 0x800);
    bytes::lemma_held_u64(base, fields, 0x808);
    assert(bytes::clear_of(fields, 74, 78, 0x810, 0x82c));
    bytes::lemma_clear_of(fields, 74, 78, 0x810, 0x82c);
    bytes::lemma_held_u32(base, fields, 0x810);
    bytes::lemma_held_u32(base, fields, 0x814);
    bytes::lemma_held_u32(base, fields, 0x820);
    bytes::lemma_held_u32(base, fields, 0x828);
}

/// A work keeps the timestamps of the firmware where its addresses say.
pub proof fn lemma_work_timestamps(p: Parameters, a: Addresses)
    requires
        p.is_valid(),
        p.resource + 0x1498 <= u64::MAX,
    ensures
        ({
            let m = bytes::image(0x8c0, p.work_fields(a));
            &&& bytes::u64_in(m, 0x834) == a.timestamp_start
            &&& bytes::u64_in(m, 0x83c) == a.timestamp_end
            &&& m[0x88b] == 1
        }),
{
    let fields = p.work_fields(a);
    let base = bytes::zeros(0x8c0);
    assert(fields.len() == 78);
    reveal_with_fuel(bytes::held, 12);
    reveal_with_fuel(bytes::clear_of, 14);
    assert(bytes::clear_of(fields, 61, 73, 0x834, 0x844));
    assert(bytes::clear_of(fields, 61, 78, 0x834, 0x844));
    bytes::lemma_clear_of(fields, 61, 78, 0x834, 0x844);
    bytes::lemma_held_u64(base, fields, 0x834);
    bytes::lemma_held_u64(base, fields, 0x83c);
    bytes::lemma_held_u8(base, fields, 0x88b);
}

/// What no part of a work uses is zero.
pub proof fn lemma_work_rest(p: Parameters, a: Addresses, i: int)
    requires
        0 <= i < 0x8c0,
        !(0 <= i < 0x18),
        !(0x20 <= i < 0x140),
        !(0x720 <= i < 0x72c),
        !(0x760 <= i < 0x76c),
        !(0x798 <= i < 0x7a8),
        !(0x7c8 <= i < 0x7d0),
        !(0x7e0 <= i < 0x7e4),
        !(0x7e8 <= i < 0x7f8),
        !(0x800 <= i < 0x818),
        !(0x820 <= i < 0x824),
        !(0x828 <= i < 0x82c),
        !(0x834 <= i < 0x844),
        !(0x86a <= i < 0x873),
        !(0x874 <= i < 0x878),
        !(0x87c <= i < 0x880),
        !(0x883 <= i < 0x88c),
    ensures
        bytes::image(0x8c0, p.work_fields(a))[i] == 0,
{
    let fields = p.work_fields(a);
    assert(fields.len() == 78);
    reveal_with_fuel(bytes::touched, 14);
    assert(!bytes::touched(fields, 12, i));
    assert(!bytes::touched(fields, 24, i));
    assert(!bytes::touched(fields, 36, i));
    assert(!bytes::touched(fields, 48, i));
    assert(!bytes::touched(fields, 60, i));
    assert(!bytes::touched(fields, 72, i));
    assert(!bytes::touched(fields, 78, i));
    bytes::lemma_untouched(bytes::zeros(0x8c0), fields, i);
}

/// A notifier waits until its count has come to the threshold, in the context of the work.
pub proof fn lemma_notifier(a: Addresses, count: u32)
    ensures
        ({
            let m = bytes::image(0x100, a.notifier_fields(count));
            &&& bytes::u64_in(m, 0) == a.threshold
            &&& bytes::u32_in(m, 8) == a.event_generation
            &&& bytes::u32_in(m, 12) == count
            &&& bytes::u32_in(m, 16) == 0x50
            &&& bytes::u32_in(m, 0x24) == a.context
        }),
{
    let fields = a.notifier_fields(count);
    let base = bytes::zeros(0x100);
    assert(fields.len() == 5);
    reveal_with_fuel(bytes::held, 12);
    bytes::lemma_held_u64(base, fields, 0);
    bytes::lemma_held_u32(base, fields, 8);
    bytes::lemma_held_u32(base, fields, 12);
    bytes::lemma_held_u32(base, fields, 16);
    bytes::lemma_held_u32(base, fields, 0x24);
}

/// What the driver does not set of a notifier is zero.
pub proof fn lemma_notifier_rest(a: Addresses, count: u32, i: int)
    requires
        0 <= i < 0x100,
        !(0 <= i < 0x14),
        !(0x24 <= i < 0x28),
    ensures
        bytes::image(0x100, a.notifier_fields(count))[i] == 0,
{
    let fields = a.notifier_fields(count);
    assert(fields.len() == 5);
    reveal_with_fuel(bytes::touched, 14);
    assert(!bytes::touched(fields, 5, i));
    bytes::lemma_untouched(bytes::zeros(0x100), fields, i);
}

/// The support block names the directory with its entries and the pages behind it, and the shared state.
pub proof fn lemma_support()
    ensures
        ({
            let m = bytes::image(0x100, compute::support_fields());
            &&& bytes::u64_in(m, 0) == 2
            &&& bytes::u64_in(m, 0x14) == 0x70_02cc_0000
            &&& bytes::u32_in(m, 0x1c) == 0x3000
            &&& bytes::u32_in(m, 0x24) == 0x2000
            &&& bytes::u32_in(m, 0x2c) == 0x2000
            &&& bytes::u64_in(m, 0x4c) == 0xffff_fc20_001b_0000
        }),
{
    let fields = compute::support_fields();
    let base = bytes::zeros(0x100);
    assert(fields.len() == 6);
    reveal_with_fuel(bytes::held, 12);
    bytes::lemma_held_u64(base, fields, 0);
    bytes::lemma_held_u64(base, fields, 0x14);
    bytes::lemma_held_u32(base, fields, 0x1c);
    bytes::lemma_held_u32(base, fields, 0x24);
    bytes::lemma_held_u32(base, fields, 0x2c);
    bytes::lemma_held_u64(base, fields, 0x4c);
}

/// The entry stream drains the caches with a full barrier, then jumps to the stream of the caller: what it
/// jumps to is all of its address that the hardware has.
pub proof fn lemma_entry(stream: u64)
    requires
        stream < 0x100_0000_0000,
    ensures
        ({
            let m = bytes::image(0xc, compute::entry_fields(stream));
            let barrier = bytes::u32_in(m, 0);
            let jump = bytes::u32_in(m, 4);
            &&& barrier == 0x600f_ffff
            &&& jump / 0x2000_0000 == 1
            &&& (jump / 0x1000_0000) % 2 == 0
            &&& (jump % 0x100) * 0x1_0000_0000 + bytes::u32_in(m, 8) == stream
        }),
{
    let fields = compute::entry_fields(stream);
    let base = bytes::zeros(0xc);
    let high = (stream / 0x1_0000_0000) as u32;
    assert(0x2000_0000u32 | high == 0x2000_0000 + high) by (bit_vector)
        requires
            high < 0x100,
    ;
    reveal_with_fuel(bytes::held, 5);
    bytes::lemma_held_u32(base, fields, 0);
    bytes::lemma_held_u32(base, fields, 4);
    bytes::lemma_held_u32(base, fields, 8);
}

} // verus!
