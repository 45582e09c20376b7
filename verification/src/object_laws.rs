//! What the objects of the firmware say to those who read them.
use crate::bytes;
use crate::bytes::Field;
use crate::events;
use crate::fw;
use crate::fw::{MainConfig, RootPointers};
use crate::lanes;
use crate::lanes::Lane;
use crate::operands;
use crate::operands::OperandPool;
use crate::plan;
use crate::queue;
use crate::queue::Queue;
use crate::render::Addresses;
use crate::tvb::Tvb;
use vstd::prelude::*;

verus! {

/// A queue names its cursors, its ring, its jobs, its private part and its context, each in its own place.
#[verifier::rlimit(50)]
pub proof fn lemma_queue(q: Queue)
    ensures
        ({
            let m = bytes::image(0xb0, q.fields());
            &&& bytes::u64_in(m, 0) == q.pointers
            &&& bytes::u64_in(m, 8) == q.ring
            &&& bytes::u64_in(m, 0x10) == q.jobs
            &&& bytes::u64_in(m, 0x18) == q.private
            &&& bytes::u64_in(m, 0xa4) == q.context
            &&& bytes::u64_in(m, 0x38) == 0xffff_ffff_ffff_0000
            &&& bytes::u32_in(m, 0x2c) == 0xffff_ffff
            &&& bytes::u32_in(m, 0x40) == 1
            &&& bytes::u32_in(m, 0x48) == 1
            &&& bytes::u32_in(m, 0x4c) == 0xffff_ffff
            &&& bytes::u32_in(m, 0x50) == q.uuid
        }),
{
    let fields = q.fields();
    let base = bytes::zeros(0xb0);
    assert(fields.len() == 11);
    reveal_with_fuel(bytes::held, 12);
    reveal_with_fuel(bytes::clear_of, 14);
    assert(bytes::clear_of(fields, 4, 11, 0, 0x20));
    bytes::lemma_clear_of(fields, 4, 11, 0, 0x20);
    bytes::lemma_held_u64(base, fields, 0);
    bytes::lemma_held_u64(base, fields, 8);
    bytes::lemma_held_u64(base, fields, 0x10);
    bytes::lemma_held_u64(base, fields, 0x18);
    bytes::lemma_held_u64(base, fields, 0xa4);
    bytes::lemma_held_u64(base, fields, 0x38);
    bytes::lemma_held_u32(base, fields, 0x2c);
    bytes::lemma_held_u32(base, fields, 0x40);
    bytes::lemma_held_u32(base, fields, 0x48);
    bytes::lemma_held_u32(base, fields, 0x4c);
    bytes::lemma_held_u32(base, fields, 0x50);
}

/// The rest of a queue descriptor is zero.
pub proof fn lemma_queue_rest(q: Queue, i: int)
    requires
        0 <= i < 0xb0,
        !(0 <= i < 0x20),
        !(0x2c <= i < 0x30),
        !(0x38 <= i < 0x44),
        !(0x48 <= i < 0x54),
        !(0xa4 <= i < 0xac),
    ensures
        bytes::image(0xb0, q.fields())[i] == 0,
{
    let fields = q.fields();
    assert(fields.len() == 11);
    reveal_with_fuel(bytes::touched, 14);
    assert(!bytes::touched(fields, 11, i));
    bytes::lemma_untouched(bytes::zeros(0xb0), fields, i);
}

/// A barrier waits for a value of a stamp, with its event, on behalf of a work.
#[verifier::rlimit(50)]
pub proof fn lemma_barrier_command(stamp: u64, wait: u32, event: u32, stamp_self: u32, uuid: u32)
    ensures
        ({
            let m = bytes::image(0x40, queue::barrier_fields(stamp, wait, event, stamp_self, uuid));
            &&& bytes::u32_in(m, 0) == 4
            &&& bytes::u64_in(m, 4) == stamp
            &&& bytes::u32_in(m, 0xc) == wait
            &&& bytes::u32_in(m, 0x10) == event
            &&& bytes::u32_in(m, 0x14) == stamp_self
            &&& bytes::u32_in(m, 0x18) == uuid
        }),
{
    let fields = queue::barrier_fields(stamp, wait, event, stamp_self, uuid);
    let base = bytes::zeros(0x40);
    assert(fields.len() == 6);
    reveal_with_fuel(bytes::held, 12);
    bytes::lemma_held_u32(base, fields, 0);
    bytes::lemma_held_u64(base, fields, 4);
    bytes::lemma_held_u32(base, fields, 0xc);
    bytes::lemma_held_u32(base, fields, 0x10);
    bytes::lemma_held_u32(base, fields, 0x14);
    bytes::lemma_held_u32(base, fields, 0x18);
}

/// The rest of a barrier is zero.
pub proof fn lemma_barrier_command_rest(stamp: u64, wait: u32, event: u32, stamp_self: u32, uuid: u32, i: int)
    requires
        0 <= i < 0x40,
        !(0 <= i < 0x1c),
    ensures
        bytes::image(0x40, queue::barrier_fields(stamp, wait, event, stamp_self, uuid))[i] == 0,
{
    let fields = queue::barrier_fields(stamp, wait, event, stamp_self, uuid);
    assert(fields.len() == 6);
    reveal_with_fuel(bytes::touched, 14);
    assert(!bytes::touched(fields, 6, i));
    bytes::lemma_untouched(bytes::zeros(0x40), fields, i);
}

/// A channel message announces a queue with its head and its event, and says whether the queue is new.
#[verifier::rlimit(50)]
pub proof fn lemma_channel_message(queue: u64, head: u16, event: u8, kind: u32, first: bool, tag: u64)
    ensures
        ({
            let m = bytes::image(0x18, queue::channel_fields(queue, head, event, kind, first, tag));
            &&& bytes::u64_in(m, 0) == tag
            &&& bytes::u64_in(m, 8) == queue
            &&& bytes::u32_in(m, 0x10) == kind
            &&& bytes::u16_in(m, 0x14) == head
            &&& m[0x16] == event
            &&& m[0x17] == (if first { 1int } else { 0 })
        }),
{
    let fields = queue::channel_fields(queue, head, event, kind, first, tag);
    let base = bytes::zeros(0x18);
    assert(fields.len() == 6);
    reveal_with_fuel(bytes::held, 12);
    bytes::lemma_held_u64(base, fields, 0);
    bytes::lemma_held_u64(base, fields, 8);
    bytes::lemma_held_u32(base, fields, 0x10);
    bytes::lemma_held_u16(base, fields, 0x14);
    bytes::lemma_held_u8(base, fields, 0x16);
    bytes::lemma_held_u8(base, fields, 0x17);
}

/// The opening control record hands the operand table to the firmware: 160 bytes of it, twice named.
#[verifier::rlimit(50)]
pub proof fn lemma_opening_control()
    ensures
        ({
            let m = bytes::image(0x80, fw::opening_control_fields());
            &&& bytes::u32_in(m, 0) == 0x16
            &&& bytes::u32_in(m, 0x40) == 0x20
            &&& bytes::u32_in(m, 0x44) == 1
            &&& bytes::u32_in(m, 0x48) == 0x3f
            &&& bytes::u32_in(m, 0x6c) == 160
            &&& bytes::u32_in(m, 0x74) == 1
            &&& bytes::u64_in(m, 0x54) == 0xffff_fc20_c052_8000
            &&& bytes::u64_in(m, 0x5c) == 0x70_0040_8000
            &&& bytes::u64_in(m, 0x64) == 0x70_0040_8000
        }),
{
    let fields = fw::opening_control_fields();
    let base = bytes::zeros(0x80);
    assert(fields.len() == 9);
    reveal_with_fuel(bytes::held, 12);
    bytes::lemma_held_u32(base, fields, 0);
    bytes::lemma_held_u32(base, fields, 0x40);
    bytes::lemma_held_u32(base, fields, 0x44);
    bytes::lemma_held_u32(base, fields, 0x48);
    bytes::lemma_held_u32(base, fields, 0x6c);
    bytes::lemma_held_u32(base, fields, 0x74);
    bytes::lemma_held_u64(base, fields, 0x54);
    bytes::lemma_held_u64(base, fields, 0x5c);
    bytes::lemma_held_u64(base, fields, 0x64);
}

/// The rest of the opening control records is zero.
pub proof fn lemma_opening_control_rest(i: int)
    requires
        0 <= i < 0x80,
        !(0 <= i < 4),
        !(0x40 <= i < 0x4c),
        !(0x54 <= i < 0x70),
        !(0x74 <= i < 0x78),
    ensures
        bytes::image(0x80, fw::opening_control_fields())[i] == 0,
{
    let fields = fw::opening_control_fields();
    assert(fields.len() == 9);
    reveal_with_fuel(bytes::touched, 14);
    assert(!bytes::touched(fields, 9, i));
    bytes::lemma_untouched(bytes::zeros(0x80), fields, i);
}

/// The opening free list names the first page of the accelerator and the operand table.
#[verifier::rlimit(50)]
pub proof fn lemma_opening_list()
    ensures
        ({
            let m = bytes::image(0x80, fw::opening_flist_fields());
            &&& bytes::u32_in(m, 0) == 1
            &&& bytes::u32_in(m, 0x1c) == 0x80000
            &&& bytes::u32_in(m, 0x28) == 1
            &&& bytes::u64_in(m, 0x14) == 0x70_0000_0000
            &&& bytes::u64_in(m, 0x30) == 0x70_0040_8000
            &&& bytes::u64_in(m, 0x4c) == 0xffff_fc20_0014_8000
        }),
{
    let fields = fw::opening_flist_fields();
    let base = bytes::zeros(0x80);
    assert(fields.len() == 6);
    reveal_with_fuel(bytes::held, 12);
    bytes::lemma_held_u32(base, fields, 0);
    bytes::lemma_held_u32(base, fields, 0x1c);
    bytes::lemma_held_u32(base, fields, 0x28);
    bytes::lemma_held_u64(base, fields, 0x14);
    bytes::lemma_held_u64(base, fields, 0x30);
    bytes::lemma_held_u64(base, fields, 0x4c);
}

/// The rest of the opening free list is zero.
pub proof fn lemma_opening_list_rest(i: int)
    requires
        0 <= i < 0x80,
        !(0 <= i < 4),
        !(0x14 <= i < 0x20),
        !(0x28 <= i < 0x2c),
        !(0x30 <= i < 0x38),
        !(0x4c <= i < 0x54),
    ensures
        bytes::image(0x80, fw::opening_flist_fields())[i] == 0,
{
    let fields = fw::opening_flist_fields();
    assert(fields.len() == 6);
    reveal_with_fuel(bytes::touched, 14);
    assert(!bytes::touched(fields, 6, i));
    bytes::lemma_untouched(bytes::zeros(0x80), fields, i);
}

/// The root descriptor starts with its magic number, and names the regions of the firmware.
#[verifier::rlimit(50)]
pub proof fn lemma_root_regions(r: RootPointers)
    ensures
        ({
            let m = bytes::image(0xc8, r.fields());
            &&& bytes::u16_in(m, 0) == 0x04b8
            &&& bytes::u16_in(m, 2) == 0x8392
            &&& bytes::u16_in(m, 4) == 0xc357
            &&& bytes::u16_in(m, 6) == 0x0c89
            &&& bytes::u64_in(m, 0x08) == r.region_a
            &&& bytes::u64_in(m, 0x18) == r.main_config
            &&& bytes::u64_in(m, 0x20) == r.region_c
            &&& bytes::u64_in(m, 0xa8) == r.status_a
            &&& bytes::u64_in(m, 0xb0) == r.status_b
            &&& bytes::u64_in(m, 0xb8) == r.extra_0
            &&& bytes::u64_in(m, 0xc0) == r.extra_1
        }),
{
    let fields = r.fields();
    let base = bytes::zeros(0xc8);
    assert(fields.len() == 42);
    reveal_with_fuel(bytes::held, 12);
    reveal_with_fuel(bytes::clear_of, 14);
    assert(bytes::clear_of(fields, 7, 19, 0, 0x28));
    assert(bytes::clear_of(fields, 7, 31, 0, 0x28));
    assert(bytes::clear_of(fields, 7, 42, 0, 0x28));
    bytes::lemma_clear_of(fields, 7, 42, 0, 0x28);
    bytes::lemma_held_u16(base, fields, 0);
    bytes::lemma_held_u16(base, fields, 2);
    bytes::lemma_held_u16(base, fields, 4);
    bytes::lemma_held_u16(base, fields, 6);
    bytes::lemma_held_u64(base, fields, 0x08);
    bytes::lemma_held_u64(base, fields, 0x18);
    bytes::lemma_held_u64(base, fields, 0x20);
    assert(bytes::clear_of(fields, 11, 23, 0xa8, 0xc8));
    assert(bytes::clear_of(fields, 11, 35, 0xa8, 0xc8));
    assert(bytes::clear_of(fields, 11, 42, 0xa8, 0xc8));
    bytes::lemma_clear_of(fields, 11, 42, 0xa8, 0xc8);
    bytes::lemma_held_u64(base, fields, 0xa8);
    bytes::lemma_held_u64(base, fields, 0xb0);
    bytes::lemma_held_u64(base, fields, 0xb8);
    bytes::lemma_held_u64(base, fields, 0xc0);
}

/// The root descriptor tells the geometry of translation: pages of 16 KiB in three levels, and the first of
/// these.
#[verifier::rlimit(50)]
pub proof fn lemma_root_first_level(r: RootPointers)
    ensures
        ({
            let m = bytes::image(0xc8, r.fields());
            &&& bytes::u32_in(m, 0x2c) == 1
            &&& bytes::u16_in(m, 0x30) == 0x4000
            &&& m[0x32] == 14
            &&& m[0x33] == 3
            &&& m[0x34] == 8
            &&& m[0x35] == 14
            &&& m[0x36] == 14
            &&& m[0x37] == 36
            &&& bytes::u16_in(m, 0x38) == 64
            &&& bytes::u16_in(m, 0x3a) == 0x4000
            &&& bytes::u64_in(m, 0x3c) == 1
            &&& bytes::u64_in(m, 0x44) == 0x0000_03ff_ffff_c000
            &&& bytes::u64_in(m, 0x4c) == 0x0000_03f0_0000_0000
        }),
{
    let fields = r.fields();
    let base = bytes::zeros(0xc8);
    assert(fields.len() == 42);
    reveal_with_fuel(bytes::held, 12);
    reveal_with_fuel(bytes::clear_of, 14);
    assert(bytes::clear_of(fields, 21, 33, 0x2c, 0x3c));
    assert(bytes::clear_of(fields, 21, 42, 0x2c, 0x3c));
    bytes::lemma_clear_of(fields, 21, 42, 0x2c, 0x3c);
    bytes::lemma_held_u32(base, fields, 0x2c);
    bytes::lemma_held_u16(base, fields, 0x30);
    bytes::lemma_held_u8(base, fields, 0x32);
    bytes::lemma_held_u8(base, fields, 0x33);
    bytes::lemma_held_u8(base, fields, 0x34);
    bytes::lemma_held_u8(base, fields, 0x35);
    bytes::lemma_held_u8(base, fields, 0x36);
    bytes::lemma_held_u8(base, fields, 0x37);
    bytes::lemma_held_u16(base, fields, 0x38);
    bytes::lemma_held_u16(base, fields, 0x3a);
    assert(bytes::clear_of(fields, 24, 36, 0x3c, 0x54));
    assert(bytes::clear_of(fields, 24, 42, 0x3c, 0x54));
    bytes::lemma_clear_of(fields, 24, 42, 0x3c, 0x54);
    bytes::lemma_held_u64(base, fields, 0x3c);
    bytes::lemma_held_u64(base, fields, 0x44);
    bytes::lemma_held_u64(base, fields, 0x4c);
}

/// The root descriptor tells the geometry of the two lower levels.
#[verifier::rlimit(50)]
pub proof fn lemma_root_lower_levels(r: RootPointers)
    ensures
        ({
            let m = bytes::image(0xc8, r.fields());
            &&& m[0x54] == 8
            &&& m[0x55] == 14
            &&& m[0x56] == 14
            &&& m[0x57] == 25
            &&& bytes::u16_in(m, 0x58) == 2048
            &&& bytes::u16_in(m, 0x5a) == 0x4000
            &&& bytes::u64_in(m, 0x5c) == 1
            &&& bytes::u64_in(m, 0x64) == 0x0000_03ff_ffff_c000
            &&& bytes::u64_in(m, 0x6c) == 0x0000_000f_fe00_0000
            &&& m[0x74] == 8
            &&& m[0x75] == 14
            &&& m[0x76] == 14
            &&& m[0x77] == 14
            &&& bytes::u16_in(m, 0x78) == 2048
            &&& bytes::u16_in(m, 0x7a) == 0x4000
            &&& bytes::u64_in(m, 0x7c) == 1
            &&& bytes::u64_in(m, 0x84) == 0x0000_03ff_ffff_c000
            &&& bytes::u64_in(m, 0x8c) == 0x0000_0000_01ff_c000
        }),
{
    let fields = r.fields();
    let base = bytes::zeros(0xc8);
    assert(fields.len() == 42);
    reveal_with_fuel(bytes::held, 12);
    reveal_with_fuel(bytes::clear_of, 14);
    assert(bytes::clear_of(fields, 34, 42, 0x54, 0x75));
    bytes::lemma_clear_of(fields, 34, 42, 0x54, 0x75);
    bytes::lemma_held_u8(base, fields, 0x54);
    bytes::lemma_held_u8(base, fields, 0x55);
    bytes::lemma_held_u8(base, fields, 0x56);
    bytes::lemma_held_u8(base, fields, 0x57);
    bytes::lemma_held_u16(base, fields, 0x58);
    bytes::lemma_held_u16(base, fields, 0x5a);
    bytes::lemma_held_u64(base, fields, 0x5c);
    bytes::lemma_held_u64(base, fields, 0x64);
    bytes::lemma_held_u64(base, fields, 0x6c);
    bytes::lemma_held_u8(base, fields, 0x74);
    bytes::lemma_held_u8(base, fields, 0x75);
    bytes::lemma_held_u8(base, fields, 0x76);
    bytes::lemma_held_u8(base, fields, 0x77);
    bytes::lemma_held_u16(base, fields, 0x78);
    bytes::lemma_held_u16(base, fields, 0x7a);
    bytes::lemma_held_u64(base, fields, 0x7c);
    bytes::lemma_held_u64(base, fields, 0x84);
    bytes::lemma_held_u64(base, fields, 0x8c);
}

/// The rest of the root descriptor is zero.
pub proof fn lemma_root_rest(r: RootPointers, i: int)
    requires
        0 <= i < 0xc8,
        !(0 <= i < 0x10),
        !(0x18 <= i < 0x28),
        !(0x2c <= i < 0x94),
        !(0xa8 <= i < 0xc8),
    ensures
        bytes::image(0xc8, r.fields())[i] == 0,
{
    let fields = r.fields();
    assert(fields.len() == 42);
    reveal_with_fuel(bytes::touched, 14);
    assert(!bytes::touched(fields, 12, i));
    assert(!bytes::touched(fields, 24, i));
    assert(!bytes::touched(fields, 36, i));
    assert(!bytes::touched(fields, 42, i));
    bytes::lemma_untouched(bytes::zeros(0xc8), fields, i);
}

/// A support block names the directory and the table of the pool, with their sizes, and the shared state.
#[verifier::rlimit(50)]
pub proof fn lemma_support_block(pool: OperandPool, id: u64, shared: u64)
    ensures
        ({
            let m = bytes::image(0x100, pool.support_fields(id, shared));
            &&& bytes::u64_in(m, 0) == id
            &&& bytes::u64_in(m, 0x14) == pool.directory
            &&& bytes::u32_in(m, 0x1c) == 0x80000
            &&& bytes::u32_in(m, 0x24) == 0x3000
            &&& bytes::u32_in(m, 0x2c) == 0x3000
            &&& bytes::u64_in(m, 0x30) == pool.table
            &&& bytes::u32_in(m, 0x48) == 192
            &&& bytes::u64_in(m, 0x4c) == shared
        }),
{
    let fields = pool.support_fields(id, shared);
    let base = bytes::zeros(0x100);
    assert(fields.len() == 8);
    reveal_with_fuel(bytes::held, 12);
    bytes::lemma_held_u64(base, fields, 0);
    bytes::lemma_held_u64(base, fields, 0x14);
    bytes::lemma_held_u32(base, fields, 0x1c);
    bytes::lemma_held_u32(base, fields, 0x24);
    bytes::lemma_held_u32(base, fields, 0x2c);
    bytes::lemma_held_u64(base, fields, 0x30);
    bytes::lemma_held_u32(base, fields, 0x48);
    bytes::lemma_held_u64(base, fields, 0x4c);
}

/// The rest of a support block is zero.
pub proof fn lemma_support_block_rest(pool: OperandPool, id: u64, shared: u64, i: int)
    requires
        0 <= i < 0x100,
        !(0 <= i < 8),
        !(0x14 <= i < 0x20),
        !(0x24 <= i < 0x28),
        !(0x2c <= i < 0x38),
        !(0x48 <= i < 0x54),
    ensures
        bytes::image(0x100, pool.support_fields(id, shared))[i] == 0,
{
    let fields = pool.support_fields(id, shared);
    assert(fields.len() == 8);
    reveal_with_fuel(bytes::touched, 14);
    assert(!bytes::touched(fields, 8, i));
    bytes::lemma_untouched(bytes::zeros(0x100), fields, i);
}

/// A buffer manager names its page list, its block list, their control and its counter, with their sizes.
#[verifier::rlimit(50)]
pub proof fn lemma_manager(a: Addresses)
    ensures
        ({
            let m = bytes::image(0x4000, a.manager_fields());
            &&& bytes::u32_in(m, 0xc) == a.buffer_manager_slot % 0x1_0000_0000
            &&& bytes::u32_in(m, 0x28) == 0x258000
            &&& bytes::u32_in(m, 0x2c) == 0x10
            &&& bytes::u32_in(m, 0x30) == 0x1c000
            &&& bytes::u32_in(m, 0x34) == 0x2c
            &&& bytes::u32_in(m, 0x38) == 0x19b3
            &&& bytes::u32_in(m, 0x3c) == 0xb
            &&& bytes::u32_in(m, 0x54) == 0x2b
            &&& bytes::u32_in(m, 0x58) == 0x20000
            &&& bytes::u32_in(m, 0x7c) == 0x66cc
            &&& bytes::u32_in(m, 0x80) == 0x2244
            &&& bytes::u32_in(m, 0x84) == 0x248000
            &&& bytes::u64_in(m, 0x20) == a.buffer_manager_page_list
            &&& bytes::u64_in(m, 0x44) == a.buffer_manager_block_list
            &&& bytes::u64_in(m, 0x4c) == a.buffer_manager_block_control
            &&& bytes::u64_in(m, 0x64) == a.buffer_manager_counter
        }),
{
    let fields = a.manager_fields();
    let base = bytes::zeros(0x4000);
    assert(fields.len() == 16);
    reveal_with_fuel(bytes::held, 12);
    reveal_with_fuel(bytes::clear_of, 14);
    assert(bytes::clear_of(fields, 1, 13, 0xc, 0x10));
    assert(bytes::clear_of(fields, 1, 16, 0xc, 0x10));
    bytes::lemma_clear_of(fields, 1, 16, 0xc, 0x10);
    bytes::lemma_held_u32(base, fields, 0xc);
    assert(bytes::clear_of(fields, 7, 16, 0x28, 0x40));
    bytes::lemma_clear_of(fields, 7, 16, 0x28, 0x40);
    bytes::lemma_held_u32(base, fields, 0x28);
    bytes::lemma_held_u32(base, fields, 0x2c);
    bytes::lemma_held_u32(base, fields, 0x30);
    bytes::lemma_held_u32(base, fields, 0x34);
    bytes::lemma_held_u32(base, fields, 0x38);
    bytes::lemma_held_u32(base, fields, 0x3c);
    bytes::lemma_held_u32(base, fields, 0x54);
    bytes::lemma_held_u32(base, fields, 0x58);
    bytes::lemma_held_u32(base, fields, 0x7c);
    bytes::lemma_held_u32(base, fields, 0x80);
    bytes::lemma_held_u32(base, fields, 0x84);
    bytes::lemma_held_u64(base, fields, 0x20);
    bytes::lemma_held_u64(base, fields, 0x44);
    bytes::lemma_held_u64(base, fields, 0x4c);
    bytes::lemma_held_u64(base, fields, 0x64);
}

/// The rest of a buffer manager is zero.
pub proof fn lemma_manager_rest(a: Addresses, i: int)
    requires
        0 <= i < 0x4000,
        !(0xc <= i < 0x10),
        !(0x20 <= i < 0x40),
        !(0x44 <= i < 0x5c),
        !(0x64 <= i < 0x6c),
        !(0x7c <= i < 0x88),
    ensures
        bytes::image(0x4000, a.manager_fields())[i] == 0,
{
    let fields = a.manager_fields();
    assert(fields.len() == 16);
    reveal_with_fuel(bytes::touched, 14);
    assert(!bytes::touched(fields, 12, i));
    assert(!bytes::touched(fields, 16, i));
    bytes::lemma_untouched(bytes::zeros(0x4000), fields, i);
}

/// A reply to a request for growth says whether the buffer has grown, and repeats what identifies the request.
#[verifier::rlimit(50)]
pub proof fn lemma_growth_reply(pool: Tvb, context: u64, grown: bool, subpipe: u32, halt_count: u64)
    ensures
        ({
            let m = bytes::image(64, events::growth_fields(pool, context, grown, subpipe, halt_count));
            &&& bytes::u32_in(m, 0) == 8
            &&& bytes::u32_in(m, 4) == (if grown { 1int } else { 0 })
            &&& bytes::u32_in(m, 8) == pool.addresses.buffer_manager_slot % 0x1_0000_0000
            &&& bytes::u32_in(m, 12) == context % 0x1_0000_0000
            &&& bytes::u32_in(m, 16) == pool.counter
            &&& bytes::u32_in(m, 20) == subpipe
            &&& bytes::u64_in(m, 24) == halt_count
        }),
{
    let fields = events::growth_fields(pool, context, grown, subpipe, halt_count);
    let base = bytes::zeros(64);
    assert(fields.len() == 7);
    reveal_with_fuel(bytes::held, 12);
    bytes::lemma_held_u32(base, fields, 0);
    bytes::lemma_held_u32(base, fields, 4);
    bytes::lemma_held_u32(base, fields, 8);
    bytes::lemma_held_u32(base, fields, 12);
    bytes::lemma_held_u32(base, fields, 16);
    bytes::lemma_held_u32(base, fields, 20);
    bytes::lemma_held_u64(base, fields, 24);
}

/// The rest of a reply to a request for growth is zero.
pub proof fn lemma_growth_reply_rest(
    pool: Tvb,
    context: u64,
    grown: bool,
    subpipe: u32,
    halt_count: u64,
    i: int,
)
    requires
        0 <= i < 64,
        !(0 <= i < 0x20),
    ensures
        bytes::image(64, events::growth_fields(pool, context, grown, subpipe, halt_count))[i] == 0,
{
    let fields = events::growth_fields(pool, context, grown, subpipe, halt_count);
    assert(fields.len() == 7);
    reveal_with_fuel(bytes::touched, 14);
    assert(!bytes::touched(fields, 7, i));
    bytes::lemma_untouched(bytes::zeros(64), fields, i);
}

/// A reply that ends a render names the queue and the stamp of its shading.
#[verifier::rlimit(50)]
pub proof fn lemma_limit_reply(a: Addresses)
    ensures
        ({
            let m = bytes::image(64, events::limit_fields(a));
            &&& bytes::u32_in(m, 0) == 9
            &&& bytes::u32_in(m, 4) == 1
            &&& bytes::u64_in(m, 8) == a.fragment_queue
            &&& bytes::u32_in(m, 16) == a.fragment_stamp % 0x1_0000_0000
        }),
{
    let fields = events::limit_fields(a);
    let base = bytes::zeros(64);
    assert(fields.len() == 4);
    reveal_with_fuel(bytes::held, 12);
    bytes::lemma_held_u32(base, fields, 0);
    bytes::lemma_held_u32(base, fields, 4);
    bytes::lemma_held_u64(base, fields, 8);
    bytes::lemma_held_u32(base, fields, 16);
}

/// The rest of a reply that ends a render is zero.
pub proof fn lemma_limit_reply_rest(a: Addresses, i: int)
    requires
        0 <= i < 64,
        !(0 <= i < 0x14),
    ensures
        bytes::image(64, events::limit_fields(a))[i] == 0,
{
    let fields = events::limit_fields(a);
    assert(fields.len() == 4);
    reveal_with_fuel(bytes::touched, 14);
    assert(!bytes::touched(fields, 4, i));
    bytes::lemma_untouched(bytes::zeros(64), fields, i);
}

/// The main configuration ends with the addresses and the regions that it names, in order.
#[verifier::rlimit(50)]
pub proof fn lemma_config_tail(c: MainConfig)
    ensures
        ({
            let m = c.image();
            &&& bytes::u64_in(m, 0x24c) == c.addresses@[0]
            &&& bytes::u64_in(m, 0x254) == c.addresses@[1]
            &&& bytes::u64_in(m, 0x25c) == c.addresses@[2]
            &&& bytes::u64_in(m, 0x264) == c.addresses@[3]
            &&& bytes::u64_in(m, 0x26c) == c.addresses@[4]
            &&& bytes::u64_in(m, 0x2c8) == c.regions@[0]
            &&& bytes::u64_in(m, 0x2d0) == c.regions@[1]
            &&& bytes::u64_in(m, 0x2d8) == c.regions@[2]
            &&& bytes::u64_in(m, 0x2e0) == c.regions@[3]
            &&& bytes::u64_in(m, 0x2e8) == c.regions@[4]
            &&& bytes::u64_in(m, 0x2f0) == c.regions@[5]
            &&& bytes::u32_in(m, 0x2f8) == 4
            &&& bytes::u32_in(m, 0x3d8) == 0xff
            &&& bytes::u32_in(m, 0x4c0) == 0x16
        }),
{
    let fields = c.tail_fields();
    let base = bytes::overlay(bytes::image(0x500, c.head_fields()), c.channel_fields(17));
    assert(fields.len() == 14);
    reveal_with_fuel(bytes::held, 12);
    reveal_with_fuel(bytes::clear_of, 14);
    assert(bytes::clear_of(fields, 10, 14, 0x24c, 0x2f0));
    bytes::lemma_clear_of(fields, 10, 14, 0x24c, 0x2f0);
    bytes::lemma_held_u64(base, fields, 0x24c);
    bytes::lemma_held_u64(base, fields, 0x254);
    bytes::lemma_held_u64(base, fields, 0x25c);
    bytes::lemma_held_u64(base, fields, 0x264);
    bytes::lemma_held_u64(base, fields, 0x26c);
    bytes::lemma_held_u64(base, fields, 0x2c8);
    bytes::lemma_held_u64(base, fields, 0x2d0);
    bytes::lemma_held_u64(base, fields, 0x2d8);
    bytes::lemma_held_u64(base, fields, 0x2e0);
    bytes::lemma_held_u64(base, fields, 0x2e8);
    bytes::lemma_held_u64(base, fields, 0x2f0);
    bytes::lemma_held_u32(base, fields, 0x2f8);
    bytes::lemma_held_u32(base, fields, 0x3d8);
    bytes::lemma_held_u32(base, fields, 0x4c0);
}

/// The fields of the channels, one by one.
proof fn lemma_channel_table(c: MainConfig, n: int, k: int)
    requires
        0 <= n <= 17,
        0 <= k < 4 * n,
    ensures
        c.channel_fields(n).len() == 4 * n,
        c.channel_fields(n)[k] == bytes::w64(
            (0x20 + k * 8) as usize,
            if k % 4 == 3 {
                c.channels@[k / 4].ring
            } else {
                c.channels@[k / 4].state@[k % 4]
            },
        ),
    decreases n,
{
    if k < 4 * (n - 1) {
        lemma_channel_table(c, n - 1, k);
    } else {
        lemma_channel_count(c, n - 1);
    }
}

proof fn lemma_channel_count(c: MainConfig, n: int)
    requires
        0 <= n <= 17,
    ensures
        c.channel_fields(n).len() == 4 * n,
    decreases n,
{
    if n > 0 {
        lemma_channel_count(c, n - 1);
    }
}

/// The main configuration holds its channels in order from byte 0x20 on: three cursors each, then the ring.
pub proof fn lemma_config_channels(c: MainConfig, i: int)
    requires
        0 <= i < 17,
    ensures
        bytes::u64_in(c.image(), 0x20 + 0x20 * i) == c.channels@[i].state@[0],
        bytes::u64_in(c.image(), 0x28 + 0x20 * i) == c.channels@[i].state@[1],
        bytes::u64_in(c.image(), 0x30 + 0x20 * i) == c.channels@[i].state@[2],
        bytes::u64_in(c.image(), 0x38 + 0x20 * i) == c.channels@[i].ring,
{
    lemma_config_cursor(c, 4 * i);
    lemma_config_cursor(c, 4 * i + 1);
    lemma_config_cursor(c, 4 * i + 2);
    lemma_config_cursor(c, 4 * i + 3);
}

#[verifier::rlimit(50)]
proof fn lemma_config_cursor(c: MainConfig, k: int)
    requires
        0 <= k < 68,
    ensures
        bytes::u64_in(c.image(), 0x20 + 8 * k) == if k % 4 == 3 {
            c.channels@[k / 4].ring
        } else {
            c.channels@[k / 4].state@[k % 4]
        },
{
    let fields = c.channel_fields(17);
    let base = bytes::image(0x500, c.head_fields());
    let middle = bytes::overlay(base, fields);
    lemma_channel_table(c, 17, k);
    assert forall|j: int| k < j < fields.len() implies fields[k].offset + fields[k].width <= (
    #[trigger] fields[j]).offset by {
        lemma_channel_table(c, 17, j);
    }
    assert(bytes::survives(fields, k));
    bytes::lemma_reads_back_u64(base, fields, k);
    let tail = c.tail_fields();
    assert(tail.len() == 14);
    reveal_with_fuel(bytes::touched, 16);
    assert forall|i: int| 0 <= i < 0x240 implies !#[trigger] bytes::touched(tail, 14, i) by {}
    bytes::lemma_read_elsewhere(middle, tail, 0x20 + 8 * k);
}

/// The main configuration starts with the hardware data, the repeated part twice and the header.
#[verifier::rlimit(50)]
pub proof fn lemma_config_head(c: MainConfig)
    ensures
        bytes::u64_in(c.image(), 0) == c.hwdata,
        bytes::u64_in(c.image(), 8) == c.repeated,
        bytes::u64_in(c.image(), 16) == c.repeated,
        bytes::u64_in(c.image(), 24) == c.header,
        bytes::u64_in(c.image(), 0x469) == c.unaligned,
{
    let fields = c.channel_fields(17);
    let head = c.head_fields();
    let base = bytes::image(0x500, head);
    let middle = bytes::overlay(base, fields);
    let tail = c.tail_fields();
    lemma_channel_count(c, 17);
    assert(tail.len() == 14);
    assert(head.len() == 5);
    reveal_with_fuel(bytes::held, 7);
    reveal_with_fuel(bytes::touched, 16);
    assert forall|i: int| 0 <= i < 0x20 || 0x469 <= i < 0x471 implies !#[trigger] bytes::touched(
        tail,
        14,
        i,
    ) by {}
    assert forall|i: int| 0 <= i < 0x20 || 0x469 <= i < 0x471 implies !#[trigger] bytes::touched(
        fields,
        68,
        i,
    ) by {
        assert forall|k: int| 0 <= k < fields.len() implies !(#[trigger] fields[k]).covers(i) by {
            lemma_channel_table(c, 17, k);
        }
        lemma_no_field(fields, 68, i);
    }
    bytes::lemma_held_u64(bytes::zeros(0x500), head, 0);
    bytes::lemma_held_u64(bytes::zeros(0x500), head, 8);
    bytes::lemma_held_u64(bytes::zeros(0x500), head, 16);
    bytes::lemma_held_u64(bytes::zeros(0x500), head, 24);
    bytes::lemma_held_u64(bytes::zeros(0x500), head, 0x469);
    bytes::lemma_read_elsewhere(base, fields, 0);
    bytes::lemma_read_elsewhere(base, fields, 8);
    bytes::lemma_read_elsewhere(base, fields, 16);
    bytes::lemma_read_elsewhere(base, fields, 24);
    bytes::lemma_read_elsewhere(base, fields, 0x469);
    bytes::lemma_read_elsewhere(middle, tail, 0);
    bytes::lemma_read_elsewhere(middle, tail, 8);
    bytes::lemma_read_elsewhere(middle, tail, 16);
    bytes::lemma_read_elsewhere(middle, tail, 24);
    bytes::lemma_read_elsewhere(middle, tail, 0x469);
}

proof fn lemma_no_field(fields: Seq<Field>, n: int, i: int)
    requires
        0 <= n <= fields.len(),
        forall|k: int| 0 <= k < fields.len() ==> !(#[trigger] fields[k]).covers(i),
    ensures
        !bytes::touched(fields, n, i),
    decreases n,
{
    if n > 0 {
        lemma_no_field(fields, n - 1, i);
    }
}

/// The submission channels of the first configuration: three for each of four priorities, with cursors that
/// lie apart, and rings of 0x1800 bytes that fill the bundle without gaps.
pub proof fn lemma_submission_channels(bundle: u64, i: int, j: int)
    requires
        bundle + 0x1c240 <= u64::MAX,
        0 <= i < 12,
        0 <= j < 12,
    ensures
        ({
            let a = fw::bootstrap_channel(bundle, i);
            let b = fw::bootstrap_channel(bundle, j);
            &&& a.0.len() == 3
            &&& a.0[1] == a.0[0] + 8
            &&& a.0[0] == 0xffff_fc20_0002_8000 + 0x40 * (i % 3) + 0x10 * (i / 3)
            &&& a.0[2] == 0xffff_fc20_0002_0000 + 0x20 * (i % 3) + 8 * (i / 3)
            &&& a.1 == bundle + 0x10240 + 0x6000 * (i % 3) - 0x1800 * (i / 3)
            &&& i != j ==> a.1 + 0x1800 <= b.1 || b.1 + 0x1800 <= a.1
        }),
{
    let rings = fw::ring_offsets();
    let states = fw::state_offsets();
    assert(rings.len() == 12 && states.len() == 12);
    assert(rings[i] == 0x10240 + 0x6000 * (i % 3) - 0x1800 * (i / 3));
    assert(rings[j] == 0x10240 + 0x6000 * (j % 3) - 0x1800 * (j / 3));
    assert(states[i].0 == 0x40 * (i % 3) + 0x10 * (i / 3) && states[i].1 == 0x20 * (i % 3) + 8 * (i / 3));
}

/// A page of the operand directory lists operand pages one after the other: 512 pages of 4 KiB to a buffer.
pub proof fn lemma_directory_entry(pool: OperandPool, offset: int, i: int)
    requires
        0x4_0000 <= offset < 0x5_8000,
        offset % 0x4000 == 0,
        0 <= i < 0x800,
        pool.buffer + 24 * 0x20_8000 <= u64::MAX,
    ensures
        ({
            let page = (offset - 0x4_0000) / 8 + i;
            bytes::u64_in(bytes::image(0x4000, operands::private_fields(pool, offset)), 8 * i)
                == pool.buffer + (page / 512) * 0x20_8000 + (page % 512) * 0x1000
        }),
{
    let fields = operands::private_fields(pool, offset);
    let page = (offset - 0x4_0000) / 8 + i;
    assert(fields.len() == 0x800);
    assert(fields[i] == bytes::w64((8 * i) as usize, operands::operand_address(pool, page)));
    assert forall|j: int| i < j < fields.len() implies fields[i].offset + fields[i].width <= (
    #[trigger] fields[j]).offset by {}
    assert(bytes::survives(fields, i));
    assert(0 <= page / 512 < 24);
    bytes::lemma_reads_back_u64(bytes::zeros(0x4000), fields, i);
}

/// The operand table has a record for each of 24 buffers, 64 bytes apart: its address, with the mark of a
/// valid one.
pub proof fn lemma_table_entry(pool: OperandPool, i: int)
    requires
        0 <= i < 24,
        pool.buffer + 24 * 0x20_8000 < 0x2000_0000_0000_0000,
    ensures
        bytes::u64_in(bytes::image(0x4000, operands::private_fields(pool, 0x44_0000)), 0x40 * i)
            == 0x2000_0000_0000_0000 + pool.buffer + i * 0x20_8000,
{
    let fields = operands::private_fields(pool, 0x44_0000);
    let value = (pool.buffer + i * 0x20_8000) as u64;
    assert(fields.len() == 24);
    assert(value | 0x2000_0000_0000_0000 == 0x2000_0000_0000_0000 + value) by (bit_vector)
        requires
            value < 0x2000_0000_0000_0000,
    ;
    assert(fields[i] == bytes::w64((0x40 * i) as usize, value | 0x2000_0000_0000_0000));
    assert forall|j: int| i < j < fields.len() implies fields[i].offset + fields[i].width <= (
    #[trigger] fields[j]).offset by {}
    assert(bytes::survives(fields, i));
    bytes::lemma_reads_back_u64(bytes::zeros(0x4000), fields, i);
}

/// A page list names four pages of each block of eleven; blocks are five pages apart, from page 0x11 on.
pub proof fn lemma_page_list(a: Addresses, pool: OperandPool, block: int, page: int)
    requires
        0 <= block < 11,
        0 <= page < 4,
    ensures
        bytes::u32_in(bytes::image(0x4000, operands::page_numbers()), 16 * block + 4 * page) == 0x11 + 5
            * block + page,
        operands::private_fields(pool, 0x345_0000) == operands::page_numbers(),
{
    let fields = operands::page_numbers();
    let k = 4 * block + page;
    assert(fields.len() == 44);
    assert(k / 4 == block && k % 4 == page);
    assert(fields[k] == bytes::w32((4 * k) as usize, (0x11 + 5 * block + page) as u32));
    assert forall|j: int| k < j < fields.len() implies fields[k].offset + fields[k].width <= (
    #[trigger] fields[j]).offset by {}
    assert(bytes::survives(fields, k));
    bytes::lemma_reads_back_u32(bytes::zeros(0x4000), fields, k);
}

/// What the pages of a placement hold, by their addresses: the manager, the control of eleven blocks, the
/// counter, the list of blocks, the list of pages, the scenes and the events.
#[verifier::rlimit(50)]
pub proof fn lemma_placement_pages(a: Addresses, address: u64)
    ensures
        address == a.buffer_manager ==> a.page_fields(address) == a.manager_fields(),
        address == a.buffer_manager_page_list && address != a.buffer_manager && address
            != a.buffer_manager_block_control && address != a.buffer_manager_counter && address
            != a.buffer_manager_block_list ==> a.page_fields(address) == operands::page_numbers(),
        address == a.buffer_manager_block_control && address != a.buffer_manager ==> {
            let m = bytes::image(0x4000, a.page_fields(address));
            &&& bytes::u32_in(m, 0) == 11
            &&& bytes::u32_in(m, 4) == 11
            &&& bytes::u32_in(m, 0x60) == 1
        },
        address == a.buffer_manager_counter && address != a.buffer_manager && address
            != a.buffer_manager_block_control ==> bytes::u32_in(
            bytes::image(0x4000, a.page_fields(address)),
            0,
        ) == 1,
{
    let fields = a.page_fields(address);
    let base = bytes::zeros(0x4000);
    reveal_with_fuel(bytes::held, 5);
    if address == a.buffer_manager {
    } else if address == a.buffer_manager_block_control {
        assert(fields.len() == 3);
        bytes::lemma_held_u32(base, fields, 0);
        bytes::lemma_held_u32(base, fields, 4);
        bytes::lemma_held_u32(base, fields, 0x60);
    } else if address == a.buffer_manager_counter {
        assert(fields.len() == 1);
        bytes::lemma_held_u32(base, fields, 0);
    }
}

/// The list of blocks names the first page of each of eleven blocks, five pages apart.
pub proof fn lemma_block_list(a: Addresses, i: int)
    requires
        0 <= i < 11,
        a.buffer_manager_block_list != a.buffer_manager,
        a.buffer_manager_block_list != a.buffer_manager_block_control,
        a.buffer_manager_block_list != a.buffer_manager_counter,
    ensures
        bytes::u32_in(
            bytes::image(0x4000, a.page_fields(a.buffer_manager_block_list)),
            8 * i,
        ) == 0x11 + 5 * i,
{
    let fields = a.page_fields(a.buffer_manager_block_list);
    assert(fields.len() == 11);
    assert(fields[i] == bytes::w32((8 * i) as usize, (0x11 + i * 5) as u32));
    assert forall|j: int| i < j < fields.len() implies fields[i].offset + fields[i].width <= (
    #[trigger] fields[j]).offset by {}
    assert(bytes::survives(fields, i));
    bytes::lemma_reads_back_u32(bytes::zeros(0x4000), fields, i);
}

/// The scene records of a placement lie 128 bytes apart; each names its own slot, its own place in the list
/// of scenes, its own cycle among 36, and the control of blocks.
pub proof fn lemma_scene_records(a: Addresses, i: int)
    requires
        0 <= i < 80,
        a.links_ok(),
        a.buffer_thing / 0x4000 * 0x4000 != a.buffer_manager,
        a.buffer_thing / 0x4000 * 0x4000 != a.buffer_manager_block_control,
        a.buffer_thing / 0x4000 * 0x4000 != a.buffer_manager_counter,
        a.buffer_thing / 0x4000 * 0x4000 != a.buffer_manager_block_list,
        a.buffer_thing / 0x4000 * 0x4000 != a.buffer_manager_page_list,
    ensures
        ({
            let m = bytes::image(0x4000, a.page_fields((a.buffer_thing / 0x4000 * 0x4000) as u64));
            &&& bytes::u64_in(m, 0x80 * i) == a.pool_slots + 4 * i
            &&& bytes::u64_in(m, 0x80 * i + 8) == a.buffer_manager_scene_list + 4 * i
            &&& bytes::u64_in(m, 0x80 * i + 0x28) == 0x24_0000 + 0x30 * (i % 36)
            &&& bytes::u64_in(m, 0x80 * i + 0x40) == a.buffer_manager_block_control + 0x40
            &&& bytes::u64_in(m, 0x80 * i + 0x48) == 0x1_0000_0000
        }),
{
    let fields = a.page_fields((a.buffer_thing / 0x4000 * 0x4000) as u64);
    assert(fields.len() == 400);
    lemma_scene_field(a, fields, 5 * i);
    lemma_scene_field(a, fields, 5 * i + 1);
    lemma_scene_field(a, fields, 5 * i + 2);
    lemma_scene_field(a, fields, 5 * i + 3);
    lemma_scene_field(a, fields, 5 * i + 4);
    assert((5 * i) / 5 == i && (5 * i + 1) / 5 == i && (5 * i + 2) / 5 == i && (5 * i + 3) / 5 == i && (5
        * i + 4) / 5 == i);
}

proof fn lemma_scene_field(a: Addresses, fields: Seq<Field>, k: int)
    requires
        fields == Seq::new(400, |k: int| a.scene_fields(k)),
        0 <= k < 400,
        a.links_ok(),
    ensures
        bytes::u64_in(bytes::image(0x4000, fields), a.scene_fields(k).offset as int) == a.scene_fields(
            k,
        ).value,
{
    assert(fields[k] == a.scene_fields(k));
    let i = k / 5;
    assert forall|j: int| k < j < fields.len() implies fields[k].offset + fields[k].width <= (
    #[trigger] fields[j]).offset by {
        assert(fields[j] == a.scene_fields(j));
        assert(j / 5 >= i);
        if j / 5 == i {
            assert(j % 5 > k % 5);
        } else {
            assert(j / 5 >= i + 1);
        }
    }
    assert(bytes::survives(fields, k));
    bytes::lemma_reads_back_u64(bytes::zeros(0x4000), fields, k);
}

/// The profile of a priority: the lowest has most of its mask, the highest none, and nothing else is a
/// priority.
#[verifier::rlimit(50)]
pub proof fn lemma_priority(q: Queue, priority: u32)
    ensures
        Queue::profile(priority) is Some <==> priority <= 3,
        priority <= 3 ==> {
            let m = bytes::overlay(bytes::image(0xb0, q.fields()), Queue::profile(priority)->0);
            &&& m.len() == 0xb0
            &&& bytes::u32_in(m, 0x30) == priority
            &&& bytes::u32_in(m, 0x34) == priority
            &&& bytes::u64_in(m, 0x38) == (if priority == 0 {
                0xffff_ffff_ffff_0000
            } else if priority == 1 {
                0xffff_ffff_0000_0000
            } else if priority == 2 {
                0xffff_0000_0000_0000
            } else {
                0u64
            })
            &&& bytes::u32_in(m, 0x40) == (if priority == 0 {
                1int
            } else {
                0
            })
            &&& bytes::u32_in(m, 0x48) == (if priority == 0 {
                1int
            } else if priority == 1 {
                0
            } else {
                priority as int
            })
            &&& forall|i: int|
                0 <= i < 0xb0 && !(0x30 <= i < 0x44) && !(0x48 <= i < 0x4c) ==> #[trigger] m[i]
                    == bytes::image(0xb0, q.fields())[i]
        },
{
    if priority <= 3 {
        let fields = Queue::profile(priority)->0;
        let base = bytes::image(0xb0, q.fields());
        assert(fields.len() == 5);
        reveal_with_fuel(bytes::held, 7);
        reveal_with_fuel(bytes::touched, 7);
        bytes::lemma_held_u32(base, fields, 0x30);
        bytes::lemma_held_u32(base, fields, 0x34);
        bytes::lemma_held_u64(base, fields, 0x38);
        bytes::lemma_held_u32(base, fields, 0x40);
        bytes::lemma_held_u32(base, fields, 0x48);
        assert forall|i: int|
            0 <= i < 0xb0 && !(0x30 <= i < 0x44) && !(0x48 <= i < 0x4c) implies #[trigger] bytes::overlay(
            base,
            fields,
        )[i] == base[i] by {
            bytes::lemma_untouched(base, fields, i);
        }
    }
}

/// The three queues of a public queue lie one after the other, each with its cursors and its ring behind its
/// descriptor.
pub proof fn lemma_lane_layout(base: int, stage: int)
    requires
        0 <= base,
        base + 0x2_4000 <= u64::MAX,
        0 <= stage < 3,
    ensures
        ({
            let lane = lanes::lane_at(base, stage);
            &&& lane.queue == base + 0xc000 * stage
            &&& lane.pointers == lane.queue + 0x4000
            &&& lane.ring == lane.pointers + 0x4000
            &&& lane.head == 0
            &&& lane.new
        }),
{
}

/// The descriptor of a queue names its own cursors, ring and private part, and the jobs and the context of
/// the public queue. Its number is that of its page. Compute may not be suspended.
#[verifier::rlimit(50)]
pub proof fn lemma_lane_descriptor(lane: Lane, jobs: u64, context: u64, priority: u32, stage: int)
    requires
        lane.wf(),
        priority <= 3,
        lane.queue < 0xffff_fc23_0000_0000,
    ensures
        ({
            let m = lanes::descriptor_image(lane, jobs, context, priority, stage);
            &&& m.len() == 0xb0
            &&& bytes::u64_in(m, 0) == lane.pointers
            &&& bytes::u64_in(m, 8) == lane.ring
            &&& bytes::u64_in(m, 0x10) == jobs
            &&& bytes::u64_in(m, 0x18) == lane.queue + 0xb0
            &&& bytes::u64_in(m, 0xa4) == context
            &&& bytes::u32_in(m, 0x50) == (lane.queue - 0xffff_fc22_0000_0000) / 0x4000 + 2
            &&& bytes::u32_in(m, 0x34) == priority
            &&& stage != 2 ==> bytes::u32_in(m, 0x30) == priority
            &&& stage == 2 ==> bytes::u32_in(m, 0x30) == 0 && bytes::u32_in(m, 0x48) == 1
        }),
{
    let q = lanes::descriptor_of(lane, jobs, context);
    let first = bytes::image(0xb0, q.fields());
    let profile = Queue::profile(priority)->0;
    let second = bytes::overlay(first, profile);
    lemma_queue(q);
    lemma_priority(q, priority);
    assert(profile.len() == 5);
    reveal_with_fuel(bytes::touched, 7);
    assert forall|i: int| 0 <= i < 0x20 || 0x50 <= i < 0x58 || 0xa4 <= i < 0xac implies !#[trigger] bytes::touched(
        profile,
        5,
        i,
    ) by {}
    bytes::lemma_read_elsewhere(first, profile, 0);
    bytes::lemma_read_elsewhere(first, profile, 8);
    bytes::lemma_read_elsewhere(first, profile, 0x10);
    bytes::lemma_read_elsewhere(first, profile, 0x18);
    bytes::lemma_read_elsewhere(first, profile, 0x50);
    bytes::lemma_read_elsewhere(first, profile, 0xa4);
    if stage == 2 {
        let more = seq![bytes::w32(0x30, 0), bytes::w32(0x48, 1)];
        assert(more.len() == 2);
        reveal_with_fuel(bytes::held, 4);
        bytes::lemma_held_u32(second, more, 0x30);
        bytes::lemma_held_u32(second, more, 0x48);
        assert forall|i: int|
            0 <= i < 0x20 || 0x34 <= i < 0x3c || 0x50 <= i < 0x58 || 0xa4 <= i < 0xac implies !#[trigger] bytes::touched(
            more,
            2,
            i,
        ) by {}
        bytes::lemma_read_elsewhere(second, more, 0);
        bytes::lemma_read_elsewhere(second, more, 8);
        bytes::lemma_read_elsewhere(second, more, 0x10);
        bytes::lemma_read_elsewhere(second, more, 0x18);
        bytes::lemma_read_elsewhere(second, more, 0x34);
        bytes::lemma_read_elsewhere(second, more, 0x50);
        bytes::lemma_read_elsewhere(second, more, 0xa4);
    }
}

proof fn lemma_empty_cursors()
    ensures
        ({
            let m = bytes::image(0x60, seq![bytes::w32(0x40, 0), bytes::w32(0x50, 0x500)]);
            &&& m.len() == 0x60
            &&& bytes::u32_in(m, 0x40) == 0
            &&& bytes::u32_in(m, 0x50) == 0x500
        }),
{
    let cursors = seq![bytes::w32(0x40, 0), bytes::w32(0x50, 0x500)];
    assert(cursors.len() == 2);
    reveal_with_fuel(bytes::held, 4);
    bytes::lemma_held_u32(bytes::zeros(0x60), cursors, 0x40);
    bytes::lemma_held_u32(bytes::zeros(0x60), cursors, 0x50);
}

proof fn lemma_empty_jobs(jobs: u64)
    ensures
        bytes::u64_in(bytes::image(0x18, seq![bytes::w64(8, jobs)]), 8) == jobs,
{
    let list = seq![bytes::w64(8, jobs)];
    assert(list.len() == 1);
    reveal_with_fuel(bytes::held, 3);
    bytes::lemma_held_u64(bytes::zeros(0x18), list, 8);
}

#[verifier::rlimit(50)]
proof fn lemma_idle_context()
    ensures
        ({
            let m = bytes::image(
                0x40,
                seq![bytes::w16(0, 0xffff), bytes::w8(5, 1), bytes::w8(0x26, 2), bytes::w8(0x33, 0xff)],
            );
            &&& m.len() == 0x40
            &&& bytes::u16_in(m, 0) == 0xffff
            &&& m[5] == 1
            &&& m[0x26] == 2
            &&& m[0x33] == 0xff
        }),
{
    let idle = seq![bytes::w16(0, 0xffff), bytes::w8(5, 1), bytes::w8(0x26, 2), bytes::w8(0x33, 0xff)];
    assert(idle.len() == 4);
    reveal_with_fuel(bytes::held, 6);
    bytes::lemma_held_u16(bytes::zeros(0x40), idle, 0);
    bytes::lemma_held_u8(bytes::zeros(0x40), idle, 5);
    bytes::lemma_held_u8(bytes::zeros(0x40), idle, 0x26);
    bytes::lemma_held_u8(bytes::zeros(0x40), idle, 0x33);
}

/// A new queue stands one step before the first stamp that it will reach: its stamp counts computes for the
/// third queue and renders for the others, modulo the width of a stamp.
pub proof fn lemma_initial_stamp(stage: int, render_count: u64, compute_count: u64)
    requires
        0 <= stage < 3,
    ensures
        lanes::initial_stamp(stage, render_count, compute_count) == if stage == 0 {
            (0xb00 + render_count * 0x100) % 0x1_0000_0000
        } else if stage == 1 {
            render_count * 0x100 % 0x1_0000_0000
        } else {
            compute_count * 0x100 % 0x1_0000_0000
        },
{
}

/// What is stored for a new queue: its descriptor, empty cursors for a ring of 0x500 slots, and its stamp
/// beside the cursors.
pub proof fn lemma_lane_writes(
    lane: Lane,
    jobs: u64,
    context: u64,
    priority: u32,
    stage: int,
    render_count: u64,
    compute_count: u64,
)
    requires
        lane.wf(),
    ensures
        ({
            let w = lanes::lane_writes(lane, jobs, context, priority, stage, render_count, compute_count);
            &&& w.len() == 3
            &&& w[0].0 == lane.queue
            &&& w[0].1 == lanes::descriptor_image(lane, jobs, context, priority, stage)
            &&& w[1].0 == lane.pointers
            &&& w[1].1.len() == 0x60
            &&& bytes::u32_in(w[1].1, 0x40) == 0
            &&& bytes::u32_in(w[1].1, 0x50) == 0x500
            &&& w[2].0 == lane.pointers + 0x1040
            &&& w[2].2
            &&& w[2].1 == plan::word(lanes::initial_stamp(stage, render_count, compute_count))
        }),
{
    lemma_empty_cursors();
}

/// The queues of a public queue are stored in order; the jobs and the context that they share are stored once,
/// behind the cursors of the first, and empty.
pub proof fn lemma_queue_writes(lanes: Seq<Lane>, priority: u32, render_count: u64, compute_count: u64)
    requires
        lanes.len() == 3,
        lanes[0].wf(),
    ensures
        ({
            let w = lanes::queue_writes(lanes, priority, render_count, compute_count);
            let jobs = (lanes[0].queue + 0x4100) as u64;
            let context = (lanes[0].queue + 0x4140) as u64;
            &&& w.len() == 11
            &&& w.subrange(0, 3) == lanes::lane_writes(lanes[0], jobs, context, priority, 0, render_count, compute_count)
            &&& w.subrange(3, 6) == lanes::lane_writes(lanes[1], jobs, context, priority, 1, render_count, compute_count)
            &&& w.subrange(6, 9) == lanes::lane_writes(lanes[2], jobs, context, priority, 2, render_count, compute_count)
            &&& w[9].0 == lanes[0].queue + 0x4100 && bytes::u64_in(w[9].1, 8) == jobs
            &&& w[10].0 == lanes[0].queue + 0x4140 && w[10].1.len() == 0x40
            &&& bytes::u16_in(w[10].1, 0) == 0xffff
            &&& w[10].1[5] == 1
            &&& w[10].1[0x26] == 2
            &&& w[10].1[0x33] == 0xff
        }),
{
    let jobs = (lanes[0].queue + 0x4100) as u64;
    lemma_empty_jobs(jobs);
    lemma_idle_context();
}

} // verus!
