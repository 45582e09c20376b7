//! Timestamp buffers of a client.
use crate::client::{FileState, TimestampBuffer};
use crate::error::Error;
use crate::mapping::{Extent, Segment};
use vstd::prelude::*;

verus! {

/// Checks what a request on timestamps may not have: an address space.
pub fn check_stamp_request(pad: u32, vm_id: u32) -> (out: Result<(), Error>)
    ensures
        out == if pad == 0 && vm_id == 0 {
            Ok::<(), Error>(())
        } else {
            Err(Error::EINVAL)
        },
{
    if pad != 0 || vm_id != 0 {
        return Err(Error::EINVAL);
    }
    Ok(())
}

/// Whether a request can bind a part of a buffer for timestamps.
pub open spec fn bind_ok(flags: u32, usage: u32, offset: u64, range: u64) -> bool {
    flags == usage && range != 0 && offset % 0x4000 == 0 && range % 0x4000 == 0
}

/// Checks a request to bind a part of a buffer for timestamps.
pub fn check_bind(flags: u32, usage: u32, offset: u64, range: u64) -> (out: Result<(), Error>)
    ensures
        out == if bind_ok(flags, usage, offset, range) {
            Ok::<(), Error>(())
        } else {
            Err(Error::EINVAL)
        },
{
    if flags != usage || range == 0 || offset % 0x4000 != 0 || range % 0x4000 != 0 {
        return Err(Error::EINVAL);
    }
    Ok(())
}

/// Checks a request to unbind timestamps.
pub fn check_unbind(flags: u32, offset: u64, range: u64, handle: u32) -> (out: Result<(), Error>)
    ensures
        out == if flags == 0 && offset == 0 && range == 0 && handle == 0 {
            Ok::<(), Error>(())
        } else {
            Err(Error::EINVAL)
        },
{
    if flags != 0 || offset != 0 || range != 0 || handle != 0 {
        return Err(Error::EINVAL);
    }
    Ok(())
}

/// The first page of a part of a buffer of `size` bytes, and the extent of its pages.
pub fn page_span(offset: u64, range: u64, size: u64) -> (out: Result<(u64, u64), Error>)
    requires
        size <= u64::MAX - 0x3fff,
    ensures
        match out {
            Ok((first, extent)) => {
                &&& offset + range <= size
                &&& first == offset as int / 0x4000 * 0x4000
                &&& extent == (offset + range + 0x3fff) / 0x4000 * 0x4000 - first
                &&& first + extent >= offset + range
            },
            Err(e) => e == Error::EINVAL && offset + range > size,
        },
{
    let end: u64 = match offset.checked_add(range) {
        None => {
            return Err(Error::EINVAL);
        },
        Some(end) => end,
    };
    if end > size {
        return Err(Error::EINVAL);
    }
    let first: u64 = offset / 0x4000 * 0x4000;
    Ok((first, (end + 0x3fff) / 0x4000 * 0x4000 - first))
}

/// The extents of a range that shows a buffer, from some segment on; none where the buffer is too short.
pub open spec fn stamp_extents_of(segments: Seq<Segment>, i: int, offset: int, va: int, end: int) -> Option<
    Seq<Extent>,
>
    decreases segments.len() - i,
{
    if i < 0 || i >= segments.len() {
        None
    } else if offset >= segments[i].length {
        stamp_extents_of(segments, i + 1, offset - segments[i].length, va, end)
    } else {
        let left = segments[i].length - offset;
        let size = if left < end - va {
            left
        } else {
            end - va
        };
        let extent = Extent {
            start: va as u64,
            end: (va + size) as u64,
            physical: (segments[i].address + offset) as u64,
        };
        if va + size == end {
            Some(seq![extent])
        } else {
            match stamp_extents_of(segments, i + 1, 0, va + size, end) {
                None => None,
                Some(rest) => Some(seq![extent] + rest),
            }
        }
    }
}

impl FileState {
    /// The place of a timestamp buffer.
    fn find_timestamp(&self, id: u32) -> (out: Option<usize>)
        ensures
            match out {
                Some(i) => i < self.timestamps@.len() && self.timestamps@[i as int].id == id,
                None => forall|i: int|
                    0 <= i < self.timestamps@.len() ==> (#[trigger] self.timestamps@[i]).id != id,
            },
    {
        let mut i: usize = 0;
        while i < self.timestamps.len()
            invariant
                i <= self.timestamps@.len(),
                forall|j: int| 0 <= j < i ==> (#[trigger] self.timestamps@[j]).id != id,
            decreases self.timestamps@.len() - i,
        {
            if self.timestamps[i].id == id {
                return Some(i);
            }
            i += 1;
        }
        None
    }

    /// The handle that the next timestamp buffer gets.
    pub fn next_timestamp_id(&self) -> (out: Result<u32, Error>)
        ensures
            out == if self.next_timestamp < u32::MAX {
                Ok::<u32, Error>(self.next_timestamp)
            } else {
                Err(Error::ENOSPC)
            },
    {
        if self.next_timestamp == u32::MAX {
            return Err(Error::ENOSPC);
        }
        Ok(self.next_timestamp)
    }

    /// Adds a timestamp buffer whose pages the firmware sees.
    pub fn add_timestamp(&mut self, timestamp: TimestampBuffer)
        requires
            old(self).wf(),
            old(self).next_timestamp < u32::MAX,
            timestamp.id == old(self).next_timestamp,
        ensures
            final(self).wf(),
            final(self).next_vm == old(self).next_vm,
            final(self).next_queue == old(self).next_queue,
            final(self).next_timestamp == old(self).next_timestamp + 1,
            final(self).timestamps@ == old(self).timestamps@.push(timestamp),
            final(self).vms@ == old(self).vms@,
            final(self).queues@ == old(self).queues@,
    {
        let ghost before = *self;
        self.timestamps.push(timestamp);
        self.next_timestamp = self.next_timestamp + 1;
        proof {
            assert forall|k: int| 0 <= k < self.queues@.len() implies self.has_vm(
                (#[trigger] self.queues@[k]).vm,
            ) by {
                assert(before.has_vm(before.queues@[k].vm));
                let i = choose|i: int|
                    0 <= i < before.vms@.len() && (#[trigger] before.vms@[i]).id
                        == before.queues@[k].vm;
                assert(self.vms@[i].id == self.queues@[k].vm);
            }
        }
    }

    /// Drops the handle of a timestamp buffer. Its pages stay where the firmware sees them: work in
    /// flight may still write to them.
    pub fn drop_timestamp(&mut self, id: u32) -> (out: Result<(), Error>)
        requires
            old(self).wf(),
        ensures
            final(self).wf(),
            final(self).next_vm == old(self).next_vm,
            final(self).next_queue == old(self).next_queue,
            final(self).vms@ == old(self).vms@,
            final(self).queues@ == old(self).queues@,
            final(self).next_timestamp == old(self).next_timestamp,
            match out {
                Ok(_) => exists|i: int|
                    {
                        &&& 0 <= i < old(self).timestamps@.len()
                        &&& old(self).timestamps@[i].id == id
                        &&& final(self).timestamps@ == #[trigger] old(self).timestamps@.update(
                            i,
                            old(self).timestamps@.last(),
                        ).drop_last()
                    },
                Err(e) => {
                    &&& e == Error::ENOENT
                    &&& *final(self) == *old(self)
                    &&& forall|i: int|
                        0 <= i < old(self).timestamps@.len() ==> (#[trigger] old(self).timestamps@[i]).id != id
                },
            },
    {
        let index: usize = match self.find_timestamp(id) {
            None => {
                return Err(Error::ENOENT);
            },
            Some(index) => index,
        };
        let ghost before = *self;
        self.timestamps.swap_remove(index);
        proof {
            let n = before.timestamps@.len();
            assert(self.timestamps@ == before.timestamps@.update(
                index as int,
                before.timestamps@.last(),
            ).drop_last());
            assert forall|i: int| 0 <= i < n - 1 implies #[trigger] self.timestamps@[i]
                == before.timestamps@[if i == index {
                n - 1
            } else {
                i
            }] by {}
            assert forall|i: int, j: int| 0 <= i < j < self.timestamps@.len() implies (
            #[trigger] self.timestamps@[i]).id != (#[trigger] self.timestamps@[j]).id by {
                let a = if i == index {
                    n - 1
                } else {
                    i
                };
                let b = if j == index {
                    n - 1
                } else {
                    j
                };
                assert(self.timestamps@[i] == before.timestamps@[a] && self.timestamps@[j]
                    == before.timestamps@[b]);
            }
            assert forall|k: int| 0 <= k < self.queues@.len() implies self.has_vm(
                (#[trigger] self.queues@[k]).vm,
            ) by {
                assert(before.has_vm(before.queues@[k].vm));
                let i = choose|i: int|
                    0 <= i < before.vms@.len() && (#[trigger] before.vms@[i]).id
                        == before.queues@[k].vm;
                assert(self.vms@[i].id == self.queues@[k].vm);
            }
        }
        Ok(())
    }

    /// Whether a slot is inside one of the timestamp buffers.
    pub open spec fn slot_in(self, i: int, handle: u32, offset: u32) -> bool {
        &&& 0 <= i < self.timestamps@.len()
        &&& self.timestamps@[i].id == handle
        &&& offset % 8 == 0
        &&& offset + 8 <= self.timestamps@[i].size
    }

    /// Where the firmware writes a timestamp that a command asks for. Without a handle none is written.
    pub fn resolve_timestamp(&self, handle: u32, offset: u32) -> (out: Result<u64, Error>)
        requires
            self.wf(),
            forall|i: int|
                0 <= i < self.timestamps@.len() ==> (#[trigger] self.timestamps@[i]).address
                    + self.timestamps@[i].size <= u64::MAX,
        ensures
            match out {
                Ok(address) => if handle == 0 {
                    offset == 0 && address == 0
                } else {
                    exists|i: int|
                        #[trigger] self.slot_in(i, handle, offset) && address
                            == self.timestamps@[i].address + offset
                },
                Err(e) => if handle == 0 {
                    offset != 0 && e == Error::EINVAL
                } else if exists|i: int|
                    0 <= i < self.timestamps@.len() && (#[trigger] self.timestamps@[i]).id == handle {
                    e == Error::EINVAL && forall|i: int| !#[trigger] self.slot_in(i, handle, offset)
                } else {
                    e == Error::ENOENT
                },
            },
    {
        if handle == 0 {
            if offset == 0 {
                return Ok(0);
            }
            return Err(Error::EINVAL);
        }
        let index: usize = match self.find_timestamp(handle) {
            None => {
                return Err(Error::ENOENT);
            },
            Some(index) => index,
        };
        let buffer: TimestampBuffer = self.timestamps[index];
        assert(self.timestamps@[index as int].address + self.timestamps@[index as int].size
            <= u64::MAX);
        if offset % 8 != 0 || offset as u64 + 8 > buffer.size {
            proof {
                assert forall|i: int| !#[trigger] self.slot_in(i, handle, offset) by {
                    if self.slot_in(i, handle, offset) && i != index {
                        assert(self.timestamps@[i].id != self.timestamps@[index as int].id);
                    }
                }
            }
            return Err(Error::EINVAL);
        }
        assert(self.slot_in(index as int, handle, offset));
        Ok(buffer.address + offset as u64)
    }
}

} // verus!
