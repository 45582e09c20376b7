//! What a client has open: address spaces, queues and timestamp buffers.
use crate::error::Error;
use crate::mapping::Mapping;
use vstd::prelude::*;

verus! {

/// End of the addresses that clients can use.
pub const VM_END: u64 = 0x3ff_ffff_8000;

/// Smallest part of an address space that a client leaves to the driver.
pub const VM_KERNEL_MIN_SIZE: u64 = 0x2000_0000;

/// Base of the shader aperture.
pub const USC_EXEC_BASE: u64 = 0x100_0000_0000;

/// An address space of a client.
pub struct Vm {
    pub id: u32,
    /// Whether the client still has its handle.
    pub visible: bool,
    pub kernel_start: u64,
    pub kernel_end: u64,
    pub mappings: Vec<Mapping>,
    pub render_ready: bool,
    pub compute_ready: bool,
    pub render_broken: bool,
}

/// A queue of a client.
#[derive(Clone, Copy, Debug, PartialEq, Eq, Structural)]
pub struct Queue {
    pub id: u32,
    pub vm: u32,
    /// The firmware's priority: it runs in the opposite direction.
    pub priority: u32,
}

/// A buffer for timestamps, and where the firmware sees it.
#[derive(Clone, Copy, Debug, PartialEq, Eq, Structural)]
pub struct TimestampBuffer {
    pub id: u32,
    pub base: u64,
    pub extent: u64,
    pub address: u64,
    pub size: u64,
}

/// What a client has open.
pub struct FileState {
    pub next_vm: u32,
    pub next_queue: u32,
    pub next_timestamp: u32,
    pub queues: Vec<Queue>,
    pub timestamps: Vec<TimestampBuffer>,
    pub vms: Vec<Vm>,
}

/// Whether a client may create an address space that leaves a range to the driver.
pub open spec fn vm_range_ok(start: u64, end: u64) -> bool {
    &&& 0x4000 <= start
    &&& end <= VM_END
    &&& start + VM_KERNEL_MIN_SIZE <= end
    &&& start % 0x4000 == 0
    &&& end % 0x4000 == 0
}

/// Checks a request for an address space.
pub fn check_vm_create(pad: u32, start: u64, end: u64) -> (out: Result<(), Error>)
    ensures
        out == if pad == 0 && vm_range_ok(start, end) {
            Ok::<(), Error>(())
        } else {
            Err(Error::EINVAL)
        },
{
    if pad != 0 || start < 0x4000 || end > VM_END || end < start || end - start < VM_KERNEL_MIN_SIZE
        || start % 0x4000 != 0 || end % 0x4000 != 0 {
        return Err(Error::EINVAL);
    }
    Ok(())
}

/// Checks a request for a queue.
pub fn check_queue_create(flags: u32, priority: u32, usc_exec_base: u64) -> (out: Result<(), Error>)
    ensures
        out == if flags == 0 && priority <= 1 && usc_exec_base == USC_EXEC_BASE {
            Ok::<(), Error>(())
        } else {
            Err(Error::EINVAL)
        },
{
    if flags != 0 || priority > 1 || usc_exec_base != USC_EXEC_BASE {
        return Err(Error::EINVAL);
    }
    Ok(())
}

/// The size of a buffer object in whole pages.
pub open spec fn whole_pages(size: int) -> int {
    (size + 0x3fff) / 0x4000 * 0x4000
}

/// Checks a request for a buffer object: `known` are the flags that there are, `private` is the one for
/// objects of one address space. Answers the size in whole pages, and whether the object is private.
pub fn check_gem_create(flags: u32, known: u32, private: u32, vm_id: u32, size: u64, pad: u32) -> (out: Result<
    (u64, bool),
    Error,
>)
    ensures
        ({
            let is_private = flags & private != 0;
            if flags & !known != 0 || (!is_private && vm_id != 0) || size == 0 || pad != 0 || size
                + 0x3fff > u64::MAX {
                out is Err && out->Err_0 == Error::EINVAL
            } else {
                out is Ok && out->Ok_0.0 == whole_pages(size as int) && out->Ok_0.1 == is_private
            }
        }),
{
    let is_private: bool = flags & private != 0;
    if flags & !known != 0 || (!is_private && vm_id != 0) || size == 0 || pad != 0 {
        return Err(Error::EINVAL);
    }
    match size.checked_add(0x3fff) {
        None => Err(Error::EINVAL),
        Some(top) => Ok((top / 0x4000 * 0x4000, is_private)),
    }
}

/// The time in nanoseconds that a counter shows.
pub fn get_time(flags: u64, counter: u64, frequency: u64) -> (out: Result<u64, Error>)
    requires
        frequency * 1_000_000_000 <= u64::MAX,
        frequency > 0 ==> counter * 1_000_000_000 / frequency as int <= u64::MAX,
    ensures
        if flags != 0 {
            out is Err && out->Err_0 == Error::EINVAL
        } else if frequency == 0 {
            out is Err && out->Err_0 == Error::EIO
        } else {
            out is Ok && out->Ok_0 == counter * 1_000_000_000 / frequency as int
        },
{
    if flags != 0 {
        return Err(Error::EINVAL);
    }
    if frequency == 0 {
        return Err(Error::EIO);
    }
    let seconds: u64 = counter / frequency;
    let rest: u64 = counter % frequency;
    proof {
        let f = frequency as int;
        let c = counter as int;
        let n = 1_000_000_000int;
        vstd::arithmetic::div_mod::lemma_fundamental_div_mod(c, f);
        assert(c * n == (seconds * n) * f + rest * n) by (nonlinear_arith)
            requires
                c == f * seconds + rest,
        ;
        vstd::arithmetic::div_mod::lemma_hoist_over_denominator(rest * n, seconds * n, f as nat);
        assert((rest * n) / f + seconds * n == (rest * n + (seconds * n) * f) / f);
        assert(rest * n <= f * n) by (nonlinear_arith)
            requires
                rest < f,
                n > 0,
        ;
        assert(rest * n / f >= 0) by (nonlinear_arith)
            requires
                rest >= 0,
                n > 0,
                f > 0,
        ;
    }
    Ok(seconds * 1_000_000_000 + rest * 1_000_000_000 / frequency)
}

impl FileState {
    /// Whether an address space exists.
    pub open spec fn has_vm(self, id: u32) -> bool {
        exists|i: int| 0 <= i < self.vms@.len() && (#[trigger] self.vms@[i]).id == id
    }

    /// Whether an address space exists that the client has a handle of.
    pub open spec fn shows_vm(self, id: u32) -> bool {
        exists|i: int|
            0 <= i < self.vms@.len() && (#[trigger] self.vms@[i]).id == id && self.vms@[i].visible
    }

    /// Whether a queue uses an address space.
    pub open spec fn uses(self, vm: u32) -> bool {
        exists|k: int| 0 <= k < self.queues@.len() && (#[trigger] self.queues@[k]).vm == vm
    }

    /// Handles are distinct and never used again, and every queue has its address space.
    pub open spec fn wf(self) -> bool {
        &&& forall|i: int| 0 <= i < self.vms@.len() ==> (#[trigger] self.vms@[i]).id < self.next_vm
        &&& forall|i: int, j: int|
            0 <= i < j < self.vms@.len() ==> (#[trigger] self.vms@[i]).id != (
            #[trigger] self.vms@[j]).id
        &&& forall|k: int|
            0 <= k < self.queues@.len() ==> (#[trigger] self.queues@[k]).id < self.next_queue
                && self.has_vm(self.queues@[k].vm)
        &&& forall|i: int, j: int|
            0 <= i < j < self.queues@.len() ==> (#[trigger] self.queues@[i]).id != (
            #[trigger] self.queues@[j]).id
        &&& forall|i: int|
            0 <= i < self.timestamps@.len() ==> (#[trigger] self.timestamps@[i]).id
                < self.next_timestamp
        &&& forall|i: int, j: int|
            0 <= i < j < self.timestamps@.len() ==> (#[trigger] self.timestamps@[i]).id != (
            #[trigger] self.timestamps@[j]).id
    }

    /// Nothing is open.
    pub fn new() -> (out: Self)
        ensures
            out.wf(),
            out.next_vm == 1,
            out.next_queue == 1,
            out.next_timestamp == 1,
            out.vms@.len() == 0,
            out.queues@.len() == 0,
            out.timestamps@.len() == 0,
    {
        FileState {
            next_vm: 1,
            next_queue: 1,
            next_timestamp: 1,
            queues: Vec::new(),
            timestamps: Vec::new(),
            vms: Vec::new(),
        }
    }

    /// The place of an address space.
    pub fn find_vm(&self, id: u32, visible: bool) -> (out: Option<usize>)
        requires
            self.wf(),
        ensures
            match out {
                Some(i) => i < self.vms@.len() && self.vms@[i as int].id == id && (visible
                    ==> self.vms@[i as int].visible),
                None => if visible {
                    !self.shows_vm(id)
                } else {
                    !self.has_vm(id)
                },
            },
    {
        let mut i: usize = 0;
        while i < self.vms.len()
            invariant
                i <= self.vms@.len(),
                forall|j: int|
                    0 <= j < i ==> (#[trigger] self.vms@[j]).id != id || (visible
                        && !self.vms@[j].visible),
            decreases self.vms@.len() - i,
        {
            if self.vms[i].id == id && (!visible || self.vms[i].visible) {
                return Some(i);
            }
            i += 1;
        }
        None
    }

    /// Whether a queue uses an address space.
    pub fn vm_in_use(&self, vm: u32) -> (out: bool)
        ensures
            out == self.uses(vm),
    {
        let mut k: usize = 0;
        while k < self.queues.len()
            invariant
                k <= self.queues@.len(),
                forall|j: int| 0 <= j < k ==> (#[trigger] self.queues@[j]).vm != vm,
            decreases self.queues@.len() - k,
        {
            if self.queues[k].vm == vm {
                return true;
            }
            k += 1;
        }
        false
    }

    /// Opens an address space, and answers its handle.
    pub fn vm_create(&mut self, kernel_start: u64, kernel_end: u64) -> (out: Result<u32, Error>)
        requires
            old(self).wf(),
        ensures
            final(self).wf(),
            final(self).next_queue == old(self).next_queue,
            final(self).next_timestamp == old(self).next_timestamp,
            final(self).queues@ == old(self).queues@,
            final(self).timestamps@ == old(self).timestamps@,
            match out {
                Ok(id) => {
                    &&& id == old(self).next_vm
                    &&& !old(self).has_vm(id)
                    &&& final(self).next_vm == id + 1
                    &&& final(self).vms@.len() == old(self).vms@.len() + 1
                    &&& final(self).vms@.drop_last() == old(self).vms@
                    &&& ({
                        let vm = final(self).vms@.last();
                        &&& vm.id == id
                        &&& vm.visible
                        &&& vm.kernel_start == kernel_start
                        &&& vm.kernel_end == kernel_end
                        &&& vm.mappings@.len() == 0
                        &&& !vm.render_ready && !vm.compute_ready && !vm.render_broken
                    })
                },
                Err(e) => e == Error::ENOSPC && old(self).next_vm == u32::MAX && *final(self) == *old(self),
            },
    {
        let id: u32 = self.next_vm;
        let next: u32 = match id.checked_add(1) {
            None => {
                return Err(Error::ENOSPC);
            },
            Some(next) => next,
        };
        let ghost before = *self;
        self.vms.push(
            Vm {
                id,
                visible: true,
                kernel_start,
                kernel_end,
                mappings: Vec::new(),
                render_ready: false,
                compute_ready: false,
                render_broken: false,
            },
        );
        self.next_vm = next;
        proof {
            assert(self.vms@.drop_last() =~= before.vms@);
            assert forall|k: int| 0 <= k < self.queues@.len() implies self.has_vm(
                (#[trigger] self.queues@[k]).vm,
            ) by {
                assert(before.has_vm(before.queues@[k].vm));
                let i = choose|i: int|
                    0 <= i < before.vms@.len() && (#[trigger] before.vms@[i]).id
                        == before.queues@[k].vm;
                assert(self.vms@[i].id == self.queues@[k].vm);
            }
        }
        Ok(id)
    }

    /// Closes the handle of an address space. One that a queue uses is only hidden: it lives until its
    /// last queue is destroyed. Any other is answered with its place, and can be removed once its work
    /// has drained.
    pub fn vm_destroy(&mut self, pad: u32, id: u32) -> (out: Result<Option<usize>, Error>)
        requires
            old(self).wf(),
        ensures
            final(self).wf(),
            final(self).next_queue == old(self).next_queue,
            final(self).next_timestamp == old(self).next_timestamp,
            final(self).queues@ == old(self).queues@,
            final(self).timestamps@ == old(self).timestamps@,
            final(self).next_vm == old(self).next_vm,
            final(self).vms@.len() == old(self).vms@.len(),
            match out {
                Err(e) => {
                    &&& e == if pad != 0 {
                        Error::EINVAL
                    } else {
                        Error::ENOENT
                    }
                    &&& pad != 0 || !old(self).shows_vm(id)
                    &&& *final(self) == *old(self)
                },
                Ok(place) => {
                    &&& pad == 0
                    &&& old(self).shows_vm(id)
                    &&& old(self).uses(id) == (place is None)
                    &&& place matches Some(i) ==> i < old(self).vms@.len() && old(self).vms@[i as int].id == id && *final(self) == *old(self)
                    &&& place is None ==> !final(self).shows_vm(id) && final(self).has_vm(id)
                    &&& forall|i: int|
                        0 <= i < old(self).vms@.len() ==> {
                            let vm = #[trigger] final(self).vms@[i];
                            if place is None && old(self).vms@[i].id == id {
                                vm == (Vm { visible: false, ..old(self).vms@[i] })
                            } else {
                                vm == old(self).vms@[i]
                            }
                        }
                },
            },
    {
        if pad != 0 {
            return Err(Error::EINVAL);
        }
        let index: usize = match self.find_vm(id, true) {
            None => {
                return Err(Error::ENOENT);
            },
            Some(index) => index,
        };
        assert(self.shows_vm(id)) by {
            assert(self.vms@[index as int].id == id && self.vms@[index as int].visible);
        }
        if !self.vm_in_use(id) {
            return Ok(Some(index));
        }
        let ghost before = *self;
        self.vms[index].visible = false;
        proof {
            assert forall|i: int| 0 <= i < before.vms@.len() implies (
            #[trigger] self.vms@[i]).id == before.vms@[i].id by {}
            assert forall|k: int| 0 <= k < self.queues@.len() implies self.has_vm(
                (#[trigger] self.queues@[k]).vm,
            ) by {
                assert(before.has_vm(before.queues@[k].vm));
                let i = choose|i: int|
                    0 <= i < before.vms@.len() && (#[trigger] before.vms@[i]).id
                        == before.queues@[k].vm;
                assert(self.vms@[i].id == self.queues@[k].vm);
            }
            assert(self.vms@[index as int].id == id);
            assert forall|i: int| 0 <= i < before.vms@.len() && i != index implies (
            #[trigger] before.vms@[i]).id != id by {
                assert(before.vms@[index as int].id == id);
            }
            assert(!self.shows_vm(id)) by {
                if self.shows_vm(id) {
                    let i = choose|i: int|
                        0 <= i < self.vms@.len() && (#[trigger] self.vms@[i]).id == id
                            && self.vms@[i].visible;
                    assert(before.vms@[i].id == id);
                }
            }
        }
        Ok(None)
    }

    /// Removes an address space that no queue uses.
    pub fn remove_vm(&mut self, index: usize)
        requires
            old(self).wf(),
            index < old(self).vms@.len(),
            !old(self).uses(old(self).vms@[index as int].id),
        ensures
            final(self).wf(),
            final(self).next_queue == old(self).next_queue,
            final(self).next_timestamp == old(self).next_timestamp,
            final(self).queues@ == old(self).queues@,
            final(self).timestamps@ == old(self).timestamps@,
            final(self).next_vm == old(self).next_vm,
            !final(self).has_vm(old(self).vms@[index as int].id),
            final(self).vms@ == old(self).vms@.update(
                index as int,
                old(self).vms@.last(),
            ).drop_last(),
    {
        let ghost before = *self;
        self.vms.swap_remove(index);
        proof {
            let gone = before.vms@[index as int].id;
            let n = before.vms@.len();
            assert forall|i: int| 0 <= i < n - 1 implies #[trigger] self.vms@[i] == before.vms@[if i
                == index {
                n - 1
            } else {
                i
            }] by {}
            assert forall|i: int, j: int| 0 <= i < j < self.vms@.len() implies (
            #[trigger] self.vms@[i]).id != (#[trigger] self.vms@[j]).id by {
                let a = if i == index {
                    n - 1
                } else {
                    i
                };
                let b = if j == index {
                    n - 1
                } else {
                    j
                };
                assert(self.vms@[i] == before.vms@[a] && self.vms@[j] == before.vms@[b]);
            }
            assert(!self.has_vm(gone)) by {
                if self.has_vm(gone) {
                    let i = choose|i: int|
                        0 <= i < self.vms@.len() && (#[trigger] self.vms@[i]).id == gone;
                    let a = if i == index {
                        n - 1
                    } else {
                        i
                    };
                    assert(self.vms@[i] == before.vms@[a]);
                    assert(before.vms@[a].id == before.vms@[index as int].id);
                }
            }
            assert forall|k: int| 0 <= k < self.queues@.len() implies self.has_vm(
                (#[trigger] self.queues@[k]).vm,
            ) by {
                let vm = before.queues@[k].vm;
                assert(before.has_vm(vm));
                assert(vm != gone);
                let i = choose|i: int|
                    0 <= i < before.vms@.len() && (#[trigger] before.vms@[i]).id == vm;
                if i == n - 1 {
                    assert(self.vms@[index as int] == before.vms@[i]);
                } else {
                    assert(self.vms@[i] == before.vms@[i]);
                }
            }
        }
    }

    /// Opens a queue, and answers its handle.
    pub fn queue_create(&mut self, vm: u32, priority: u32) -> (out: Result<u32, Error>)
        requires
            old(self).wf(),
            priority <= 1,
        ensures
            final(self).wf(),
            final(self).next_vm == old(self).next_vm,
            final(self).next_timestamp == old(self).next_timestamp,
            final(self).vms@ == old(self).vms@,
            final(self).timestamps@ == old(self).timestamps@,
            match out {
                Ok(id) => {
                    &&& old(self).shows_vm(vm)
                    &&& id == old(self).next_queue
                    &&& final(self).next_queue == id + 1
                    &&& final(self).queues@ == old(self).queues@.push(
                        (Queue { id, vm, priority: (3 - priority) as u32 }),
                    )
                },
                Err(e) => {
                    &&& *final(self) == *old(self)
                    &&& if !old(self).shows_vm(vm) {
                        e == Error::ENOENT
                    } else {
                        e == Error::ENOSPC && old(self).next_queue == u32::MAX
                    }
                },
            },
    {
        let index: usize = match self.find_vm(vm, true) {
            None => {
                return Err(Error::ENOENT);
            },
            Some(index) => index,
        };
        assert(self.vms@[index as int].id == vm);
        let id: u32 = self.next_queue;
        let next: u32 = match id.checked_add(1) {
            None => {
                return Err(Error::ENOSPC);
            },
            Some(next) => next,
        };
        let ghost before = *self;
        self.queues.push(Queue { id, vm, priority: 3 - priority });
        self.next_queue = next;
        proof {
            assert(before.has_vm(vm));
            assert forall|k: int| 0 <= k < self.queues@.len() implies (
            #[trigger] self.queues@[k]).id < self.next_queue && self.has_vm(self.queues@[k].vm) by {
                let v = self.queues@[k].vm;
                assert(before.has_vm(v)) by {
                    if k < before.queues@.len() {
                        assert(before.has_vm(before.queues@[k].vm));
                    }
                }
                let i = choose|i: int|
                    0 <= i < before.vms@.len() && (#[trigger] before.vms@[i]).id == v;
                assert(self.vms@[i].id == v);
            }
        }
        Ok(id)
    }

    /// Closes a queue. Answers its address space.
    pub fn queue_destroy(&mut self, pad: u32, id: u32) -> (out: Result<u32, Error>)
        requires
            old(self).wf(),
        ensures
            final(self).wf(),
            final(self).next_vm == old(self).next_vm,
            final(self).next_timestamp == old(self).next_timestamp,
            final(self).vms@ == old(self).vms@,
            final(self).timestamps@ == old(self).timestamps@,
            final(self).next_queue == old(self).next_queue,
            match out {
                Ok(vm) => pad == 0 && exists|k: int|
                    {
                        &&& 0 <= k < old(self).queues@.len()
                        &&& old(self).queues@[k].id == id
                        &&& old(self).queues@[k].vm == vm
                        &&& final(self).queues@ == #[trigger] old(self).queues@.update(
                            k,
                            old(self).queues@.last(),
                        ).drop_last()
                    },
                Err(e) => {
                    &&& *final(self) == *old(self)
                    &&& if pad != 0 {
                        e == Error::EINVAL
                    } else {
                        e == Error::ENOENT && forall|k: int|
                            0 <= k < old(self).queues@.len() ==> (#[trigger] old(self).queues@[k]).id != id
                    }
                },
            },
    {
        if pad != 0 {
            return Err(Error::EINVAL);
        }
        let ghost before = *self;
        let mut k: usize = 0;
        while k < self.queues.len() && self.queues[k].id != id
            invariant
                k <= self.queues@.len(),
                *self == before,
                forall|j: int| 0 <= j < k ==> (#[trigger] self.queues@[j]).id != id,
            decreases self.queues@.len() - k,
        {
            k += 1;
        }
        if k == self.queues.len() {
            return Err(Error::ENOENT);
        }
        let queue: Queue = self.queues.swap_remove(k);
        proof {
            let n = before.queues@.len();
            assert(self.queues@ == before.queues@.update(k as int, before.queues@.last()).drop_last());
            assert forall|i: int| 0 <= i < n - 1 implies #[trigger] self.queues@[i]
                == before.queues@[if i == k {
                n - 1
            } else {
                i
            }] by {}
            assert forall|i: int| 0 <= i < self.queues@.len() implies (
            #[trigger] self.queues@[i]).id < self.next_queue && self.has_vm(self.queues@[i].vm) by {
                let a = if i == k {
                    n - 1
                } else {
                    i
                };
                assert(self.queues@[i] == before.queues@[a]);
                assert(before.has_vm(before.queues@[a].vm));
                let j = choose|j: int|
                    0 <= j < before.vms@.len() && (#[trigger] before.vms@[j]).id
                        == before.queues@[a].vm;
                assert(self.vms@[j].id == self.queues@[i].vm);
            }
            assert forall|i: int, j: int| 0 <= i < j < self.queues@.len() implies (
            #[trigger] self.queues@[i]).id != (#[trigger] self.queues@[j]).id by {
                let a = if i == k {
                    n - 1
                } else {
                    i
                };
                let b = if j == k {
                    n - 1
                } else {
                    j
                };
                assert(self.queues@[i] == before.queues@[a] && self.queues@[j] == before.queues@[b]);
            }
        }
        Ok(queue.vm)
    }

    /// The place of an address space without a handle whose last queue is gone.
    pub fn orphan(&self, vm: u32) -> (out: Option<usize>)
        requires
            self.wf(),
        ensures
            match out {
                Some(i) => {
                    &&& i < self.vms@.len()
                    &&& self.vms@[i as int].id == vm
                    &&& !self.vms@[i as int].visible
                    &&& !self.uses(vm)
                },
                None => self.uses(vm) || !self.has_vm(vm) || self.shows_vm(vm),
            },
    {
        if self.vm_in_use(vm) {
            return None;
        }
        match self.find_vm(vm, false) {
            None => None,
            Some(i) => {
                if self.vms[i].visible {
                    assert(self.vms@[i as int].visible && self.vms@[i as int].id == vm);
                    None
                } else {
                    Some(i)
                }
            },
        }
    }
}

/// A handle is never used again: as counters only rise, no later address space or queue gets the handle of one
/// that was open.
pub proof fn lemma_handles_fresh(before: FileState, after: FileState, i: int, k: int)
    requires
        before.wf(),
        before.next_vm <= after.next_vm,
        before.next_queue <= after.next_queue,
        0 <= i < before.vms@.len(),
        0 <= k < before.queues@.len(),
    ensures
        before.vms@[i].id != after.next_vm,
        before.queues@[k].id != after.next_queue,
{
}

} // verus!
