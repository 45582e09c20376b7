//! Cursors of the rings between driver and firmware.
use vstd::prelude::*;

verus! {

/// Number of records in a channel ring.
pub const CHANNEL_RING: u32 = 256;

/// Number of items in the ring of a work queue.
pub const QUEUE_RING: u32 = 0x500;

/// How far a cursor is ahead of another one in a ring.
pub open spec fn distance(cursor: int, target: int, capacity: int) -> int {
    (cursor - target) % capacity
}

/// Whether a cursor of a ring is at or behind a target by less than half the ring.
pub open spec fn has_reached(cursor: int, target: int, capacity: int) -> bool {
    cursor < capacity && target < capacity && distance(cursor, target, capacity) < capacity / 2
}

/// Whether a ring takes some more entries: the producer stays less than half the ring ahead of both
/// firmware cursors.
pub open spec fn has_room(tail: int, read: int, done: int, entries: int, capacity: int) -> bool {
    &&& tail < capacity
    &&& read < capacity
    &&& done < capacity
    &&& distance(tail, read, capacity) + entries < capacity / 2
    &&& distance(tail, done, capacity) + entries < capacity / 2
}

/// Whether a cursor has come to a target. Equality alone would lose completions when the firmware
/// advances past several commands between notifications, including over the end of the ring.
pub fn reached(cursor: u32, target: u32, capacity: u32) -> (out: bool)
    requires
        capacity <= 0x8000_0000,
    ensures
        out == has_reached(cursor as int, target as int, capacity as int),
{
    if cursor >= capacity || target >= capacity {
        return false;
    }
    proof {
        lemma_distance(cursor as int, target as int, capacity as int);
    }
    (cursor + capacity - target) % capacity < capacity / 2
}

/// Whether both firmware cursors leave enough space for an entire publication.
pub fn ring_room(tail: u32, read: u32, done: u32, entries: u32, capacity: u32) -> (out: bool)
    requires
        capacity <= 0x8000_0000,
    ensures
        out == has_room(tail as int, read as int, done as int, entries as int, capacity as int),
{
    if tail >= capacity || read >= capacity || done >= capacity {
        return false;
    }
    proof {
        lemma_distance(tail as int, read as int, capacity as int);
        lemma_distance(tail as int, done as int, capacity as int);
    }
    if entries >= capacity / 2 {
        return false;
    }
    (tail + capacity - read) % capacity + entries < capacity / 2 && (tail + capacity - done) % capacity
        + entries < capacity / 2
}

/// The distance of two cursors is computed without negative numbers.
proof fn lemma_distance(cursor: int, target: int, capacity: int)
    requires
        0 <= cursor < capacity,
        0 <= target < capacity,
    ensures
        (cursor + capacity - target) % capacity == distance(cursor, target, capacity),
        distance(cursor, target, capacity) == if cursor >= target {
            cursor - target
        } else {
            cursor - target + capacity
        },
{
    vstd::arithmetic::div_mod::lemma_mod_add_multiples_vanish(cursor - target, capacity);
    assert(capacity + (cursor - target) == cursor + capacity - target);
    if cursor >= target {
        vstd::arithmetic::div_mod::lemma_small_mod((cursor - target) as nat, capacity as nat);
    } else {
        vstd::arithmetic::div_mod::lemma_small_mod(
            (cursor - target + capacity) as nat,
            capacity as nat,
        );
    }
}

/// A cursor that passed a target by less than half the ring has reached it.
pub proof fn lemma_passed_is_reached(target: int, steps: int, capacity: int)
    requires
        0 <= target < capacity,
        0 <= steps < capacity / 2,
    ensures
        has_reached((target + steps) % capacity, target, capacity),
{
    let cursor = if target + steps < capacity {
        target + steps
    } else {
        target + steps - capacity
    };
    assert((target + steps) % capacity == cursor) by {
        if target + steps < capacity {
            vstd::arithmetic::div_mod::lemma_small_mod(cursor as nat, capacity as nat);
        } else {
            vstd::arithmetic::div_mod::lemma_mod_add_multiples_vanish(cursor, capacity);
            vstd::arithmetic::div_mod::lemma_small_mod(cursor as nat, capacity as nat);
        }
    }
    lemma_distance(cursor, target, capacity);
}

/// Admission keeps completion unambiguous: when some entries are published into a ring that has room
/// for them, neither firmware cursor has reached the new end of the ring, and the end itself has.
pub proof fn lemma_room_is_unambiguous(tail: int, read: int, done: int, entries: int, capacity: int)
    requires
        0 <= tail,
        0 <= read,
        0 <= done,
        0 < entries,
        has_room(tail, read, done, entries, capacity),
    ensures
        ({
            let end = (tail + entries) % capacity;
            &&& !has_reached(read, end, capacity)
            &&& !has_reached(done, end, capacity)
            &&& has_reached(end, end, capacity)
        }),
{
    let end = if tail + entries < capacity {
        tail + entries
    } else {
        tail + entries - capacity
    };
    lemma_distance(tail, read, capacity);
    lemma_distance(tail, done, capacity);
    assert((tail + entries) % capacity == end) by {
        if tail + entries < capacity {
            vstd::arithmetic::div_mod::lemma_small_mod(end as nat, capacity as nat);
        } else {
            vstd::arithmetic::div_mod::lemma_mod_add_multiples_vanish(end, capacity);
            vstd::arithmetic::div_mod::lemma_small_mod(end as nat, capacity as nat);
        }
    }
    lemma_distance(read, end, capacity);
    lemma_distance(done, end, capacity);
    lemma_distance(end, end, capacity);
}

} // verus!
