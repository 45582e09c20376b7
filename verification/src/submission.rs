//! What a submission comes to, once its commands are read.
use crate::client::{FileState, Vm};
use crate::compute;
use crate::error::Error;
use crate::mapping;
use crate::mapping::cover;
use crate::params;
use crate::params::{compute_parameters, render_parameters, ComputeCommand, RenderCommand, RenderFlags};
use crate::platform;
use crate::render;
use vstd::prelude::*;

verus! {

/// A slot of a timestamp buffer that a command names.
#[derive(Clone, Copy, Debug, PartialEq, Eq, Structural)]
pub struct TimestampRef {
    pub handle: u32,
    pub offset: u32,
}

/// A command, as the client wrote it.
#[derive(Clone, Copy, Debug)]
pub enum ClientCommand {
    /// A render, with the start and end of its tiling and of its fragments.
    Render(RenderCommand, [TimestampRef; 4]),
    /// A compute, with its start and end.
    Compute(ComputeCommand, [TimestampRef; 2]),
}

/// What a command is run with.
#[derive(Clone, Copy, Debug)]
pub enum CommandParameters {
    Render(render::Parameters),
    Compute(compute::Parameters),
}

/// What a submission comes to.
pub struct Submission {
    /// The place of its address space.
    pub vm: usize,
    /// Where the timestamps of each command go.
    pub timestamps: Vec<[u64; 4]>,
    pub parameters: Vec<CommandParameters>,
    /// Whether the private ranges of renders have to be set up first.
    pub render_setup: bool,
    /// Whether the private ranges of computes have to be set up first.
    pub compute_setup: bool,
}

/// Whether a command is a render.
pub open spec fn is_render(c: ClientCommand) -> bool {
    c is Render
}

/// Whether there is a render among some commands.
pub open spec fn has_render(commands: Seq<ClientCommand>) -> bool {
    exists|k: int| 0 <= k < commands.len() && is_render(#[trigger] commands[k])
}

/// Whether there is a compute among some commands.
pub open spec fn has_compute(commands: Seq<ClientCommand>) -> bool {
    exists|k: int| 0 <= k < commands.len() && !is_render(#[trigger] commands[k])
}

/// The slots that a command names, in the order in which they are looked up.
pub open spec fn slots_of(c: ClientCommand) -> Seq<TimestampRef> {
    match c {
        ClientCommand::Render(_, slots) => slots@,
        ClientCommand::Compute(_, slots) => slots@,
    }
}

/// What a command of an address space is run with, or why it is refused.
pub open spec fn parameters_of(vm: Vm, flags: RenderFlags, c: ClientCommand) -> Result<
    CommandParameters,
    Error,
> {
    match c {
        ClientCommand::Render(command, _) => if params::unsupported(command, flags) {
            Err(Error::ENOTSUPP)
        } else if !params::render_ok(command, flags, vm.mappings@, vm.kernel_start, vm.kernel_end) {
            Err(Error::EINVAL)
        } else {
            Ok(
                CommandParameters::Render(
                    params::render_parameters_of(command, flags, vm.kernel_start),
                ),
            )
        },
        ClientCommand::Compute(command, _) => if command.flags != 0 || !command.helper.is_none() {
            Err(Error::ENOTSUPP)
        } else if !params::compute_streams_ok(command) || !params::compute_mapped(command, vm.mappings@) {
            Err(Error::EINVAL)
        } else {
            Ok(CommandParameters::Compute(params::compute_parameters_of(command)))
        },
    }
}

/// Why one of the first commands is refused, if one is.
pub open spec fn parameters_refusal(vm: Vm, flags: RenderFlags, commands: Seq<ClientCommand>, n: int) -> Option<
    Error,
>
    decreases n,
{
    if n <= 0 {
        None
    } else {
        platform::first(
            parameters_refusal(vm, flags, commands, n - 1),
            platform::error_of(parameters_of(vm, flags, commands[n - 1])),
        )
    }
}

/// Whether all attachments can be written.
pub open spec fn attachments_ok(vm: Vm, attachments: Seq<(u64, u64)>) -> bool {
    forall|i: int|
        0 <= i < attachments.len() ==> mapping::range_covered(
            vm.mappings@,
            (#[trigger] attachments[i]).0 as int,
            attachments[i].1 as int,
            4,
        )
}

impl FileState {
    /// Where a timestamp goes, or why it is refused.
    pub open spec fn stamp_of(self, slot: TimestampRef) -> Result<u64, Error> {
        let known = exists|i: int|
            0 <= i < self.timestamps@.len() && (#[trigger] self.timestamps@[i]).id == slot.handle;
        let i = choose|i: int|
            0 <= i < self.timestamps@.len() && (#[trigger] self.timestamps@[i]).id == slot.handle;
        if slot.handle == 0 {
            if slot.offset == 0 {
                Ok(0)
            } else {
                Err(Error::EINVAL)
            }
        } else if !known {
            Err(Error::ENOENT)
        } else if self.slot_in(i, slot.handle, slot.offset) {
            Ok((self.timestamps@[i].address + slot.offset) as u64)
        } else {
            Err(Error::EINVAL)
        }
    }

    /// Why one of the first slots of a command is refused, if one is.
    pub open spec fn slots_refusal(self, slots: Seq<TimestampRef>, n: int) -> Option<Error>
        decreases n,
    {
        if n <= 0 {
            None
        } else {
            platform::first(
                self.slots_refusal(slots, n - 1),
                platform::error_of(self.stamp_of(slots[n - 1])),
            )
        }
    }

    /// Why the timestamps of one of the first commands are refused, if they are.
    pub open spec fn stamps_refusal(self, commands: Seq<ClientCommand>, n: int) -> Option<Error>
        decreases n,
    {
        if n <= 0 {
            None
        } else {
            let slots = slots_of(commands[n - 1]);
            platform::first(
                self.stamps_refusal(commands, n - 1),
                self.slots_refusal(slots, slots.len() as int),
            )
        }
    }

    /// Whether the timestamps of a command go where it says; a compute has two.
    pub open spec fn stamps_ok(self, c: ClientCommand, stamps: Seq<u64>) -> bool {
        let slots = slots_of(c);
        &&& stamps.len() == 4
        &&& forall|i: int|
            0 <= i < 4 ==> #[trigger] stamps[i] == if i < slots.len() {
                self.stamp_of(slots[i])->Ok_0
            } else {
                0
            }
    }

    /// Whether a queue exists.
    pub open spec fn has_queue(self, id: u32) -> bool {
        exists|k: int| 0 <= k < self.queues@.len() && (#[trigger] self.queues@[k]).id == id
    }

    /// The place of the address space of a queue.
    pub open spec fn serves_queue(self, id: u32, i: int) -> bool {
        &&& 0 <= i < self.vms@.len()
        &&& exists|k: int|
            0 <= k < self.queues@.len() && (#[trigger] self.queues@[k]).id == id && self.queues@[k].vm
                == self.vms@[i].id
    }

    /// Why a submission to the queue of an address space is refused, if it is.
    pub open spec fn submission_refusal(
        self,
        i: int,
        commands: Seq<ClientCommand>,
        attachments: Seq<(u64, u64)>,
        flags: RenderFlags,
        render_failed: bool,
    ) -> Option<Error> {
        let vm = self.vms@[i];
        platform::first(
            self.stamps_refusal(commands, commands.len() as int),
            if vm.render_broken {
                Some(Error::EIO)
            } else {
                platform::first(
                    platform::unless(attachments_ok(vm, attachments)),
                    platform::first(
                        parameters_refusal(vm, flags, commands, commands.len() as int),
                        if render_failed && ((has_render(commands) && !vm.render_ready) || (has_compute(
                            commands,
                        ) && !vm.compute_ready)) {
                            Some(Error::EIO)
                        } else {
                            None
                        },
                    ),
                )
            },
        )
    }

    /// Whether a submission comes to what its commands ask for.
    pub open spec fn submission_ok(
        self,
        out: Submission,
        commands: Seq<ClientCommand>,
        flags: RenderFlags,
    ) -> bool {
        let vm = self.vms@[out.vm as int];
        &&& out.timestamps@.len() == commands.len()
        &&& out.parameters@.len() == commands.len()
        &&& forall|k: int|
            0 <= k < commands.len() ==> self.stamps_ok(
                #[trigger] commands[k],
                out.timestamps@[k]@,
            )
        &&& forall|k: int|
            0 <= k < commands.len() ==> parameters_of(vm, flags, #[trigger] commands[k])
                == Ok::<CommandParameters, Error>(out.parameters@[k])
        &&& out.render_setup == (has_render(commands) && !vm.render_ready)
        &&& out.compute_setup == (has_compute(commands) && !vm.compute_ready)
    }

    /// Where a timestamp goes.
    fn resolve(&self, slot: &TimestampRef) -> (out: Result<u64, Error>)
        requires
            self.wf(),
            forall|i: int|
                0 <= i < self.timestamps@.len() ==> (#[trigger] self.timestamps@[i]).address
                    + self.timestamps@[i].size <= u64::MAX,
        ensures
            out == self.stamp_of(*slot),
    {
        let out: Result<u64, Error> = self.resolve_timestamp(slot.handle, slot.offset);
        proof {
            if slot.handle != 0 {
                let known = exists|i: int|
                    0 <= i < self.timestamps@.len() && (#[trigger] self.timestamps@[i]).id == slot.handle;
                if known {
                    let i = choose|i: int|
                        0 <= i < self.timestamps@.len() && (#[trigger] self.timestamps@[i]).id
                            == slot.handle;
                    if out is Ok {
                        let j = choose|j: int|
                            #[trigger] self.slot_in(j, slot.handle, slot.offset) && out->Ok_0
                                == self.timestamps@[j].address + slot.offset;
                        if j < i {
                            assert(self.timestamps@[j].id != self.timestamps@[i].id);
                        } else if i < j {
                            assert(self.timestamps@[i].id != self.timestamps@[j].id);
                        }
                        assert(i == j);
                    } else {
                        assert(!self.slot_in(i, slot.handle, slot.offset));
                    }
                } else if out is Ok {
                    let j = choose|j: int|
                        #[trigger] self.slot_in(j, slot.handle, slot.offset) && out->Ok_0
                            == self.timestamps@[j].address + slot.offset;
                    assert(self.timestamps@[j].id == slot.handle);
                }
            }
        }
        out
    }

    /// Where the timestamps of a command go.
    fn resolve_all(&self, c: &ClientCommand) -> (out: Result<[u64; 4], Error>)
        requires
            self.wf(),
            forall|i: int|
                0 <= i < self.timestamps@.len() ==> (#[trigger] self.timestamps@[i]).address
                    + self.timestamps@[i].size <= u64::MAX,
        ensures
            match out {
                Ok(stamps) => self.slots_refusal(slots_of(*c), slots_of(*c).len() as int) is None
                    && self.stamps_ok(*c, stamps@),
                Err(e) => self.slots_refusal(slots_of(*c), slots_of(*c).len() as int) == Some(e),
            },
    {
        let ghost slots = slots_of(*c);
        let mut stamps: [u64; 4] = [0u64; 4];
        let count: usize = match c {
            ClientCommand::Render(_, _) => 4,
            ClientCommand::Compute(_, _) => 2,
        };
        let mut i: usize = 0;
        while i < count
            invariant
                i <= count <= 4,
                slots == slots_of(*c),
                count == slots.len(),
                (*c is Render) == (count == 4),
                self.wf(),
                forall|i: int|
                    0 <= i < self.timestamps@.len() ==> (#[trigger] self.timestamps@[i]).address
                        + self.timestamps@[i].size <= u64::MAX,
                self.slots_refusal(slots, i as int) is None,
                forall|k: int|
                    0 <= k < 4 ==> #[trigger] stamps@[k] == if k < i {
                        self.stamp_of(slots[k])->Ok_0
                    } else {
                        0
                    },
            decreases count - i,
        {
            let slot: TimestampRef = match c {
                ClientCommand::Render(_, all) => all[i],
                ClientCommand::Compute(_, all) => all[i],
            };
            assert(slot == slots[i as int]);
            match self.resolve(&slot) {
                Err(e) => {
                    proof {
                        self.lemma_slot_refused(slots, i as int, slots.len() as int);
                    }
                    return Err(e);
                },
                Ok(stamp) => {
                    stamps[i] = stamp;
                },
            }
            i += 1;
        }
        Ok(stamps)
    }

    proof fn lemma_slot_refused(self, slots: Seq<TimestampRef>, i: int, n: int)
        requires
            0 <= i < n <= slots.len(),
            self.slots_refusal(slots, i) is None,
            self.stamp_of(slots[i]) is Err,
        ensures
            self.slots_refusal(slots, n) == Some(self.stamp_of(slots[i])->Err_0),
        decreases n,
    {
        if i + 1 < n {
            self.lemma_slot_refused(slots, i, n - 1);
        }
    }

    proof fn lemma_stamps_refused(self, commands: Seq<ClientCommand>, k: int, n: int)
        requires
            0 <= k < n <= commands.len(),
            self.stamps_refusal(commands, k) is None,
            self.slots_refusal(slots_of(commands[k]), slots_of(commands[k]).len() as int) is Some,
        ensures
            self.stamps_refusal(commands, n) == self.slots_refusal(
                slots_of(commands[k]),
                slots_of(commands[k]).len() as int,
            ),
        decreases n,
    {
        if k + 1 < n {
            self.lemma_stamps_refused(commands, k, n - 1);
        }
    }

    /// Plans a submission to a queue: where its timestamps go, what its commands are run with, and what
    /// has to be set up first.
    pub fn plan_submission(
        &self,
        queue: u32,
        commands: &Vec<ClientCommand>,
        attachments: &Vec<(u64, u64)>,
        flags: &RenderFlags,
        device_failed: bool,
        render_failed: bool,
    ) -> (out: Result<Submission, Error>)
        requires
            self.wf(),
            forall|i: int|
                0 <= i < self.timestamps@.len() ==> (#[trigger] self.timestamps@[i]).address
                    + self.timestamps@[i].size <= u64::MAX,
        ensures
            match out {
                Ok(submission) => {
                    &&& !device_failed
                    &&& self.serves_queue(queue, submission.vm as int)
                    &&& self.submission_refusal(
                        submission.vm as int,
                        commands@,
                        attachments@,
                        *flags,
                        render_failed,
                    ) is None
                    &&& self.submission_ok(submission, commands@, *flags)
                },
                Err(e) => if device_failed {
                    e == Error::EIO
                } else if !self.has_queue(queue) {
                    e == Error::ENOENT
                } else {
                    exists|i: int|
                        #[trigger] self.serves_queue(queue, i) && self.submission_refusal(
                            i,
                            commands@,
                            attachments@,
                            *flags,
                            render_failed,
                        ) == Some(e)
                },
            },
    {
        if device_failed {
            return Err(Error::EIO);
        }
        let mut q: usize = 0;
        while q < self.queues.len() && self.queues[q].id != queue
            invariant
                q <= self.queues@.len(),
                forall|k: int| 0 <= k < q ==> (#[trigger] self.queues@[k]).id != queue,
            decreases self.queues@.len() - q,
        {
            q += 1;
        }
        if q == self.queues.len() {
            return Err(Error::ENOENT);
        }
        let vm_id: u32 = self.queues[q].vm;
        proof {
            assert(self.has_vm(self.queues@[q as int].vm));
            assert(self.has_queue(queue));
        }
        let index: usize = match self.find_vm(vm_id, false) {
            None => {
                return Err(Error::ENOENT);
            },
            Some(index) => index,
        };
        let ghost refusal = self.submission_refusal(
            index as int,
            commands@,
            attachments@,
            *flags,
            render_failed,
        );
        assert(self.serves_queue(queue, index as int));
        let mut timestamps: Vec<[u64; 4]> = Vec::new();
        let mut k: usize = 0;
        while k < commands.len()
            invariant
                k <= commands@.len(),
                timestamps@.len() == k,
                self.wf(),
                forall|i: int|
                    0 <= i < self.timestamps@.len() ==> (#[trigger] self.timestamps@[i]).address
                        + self.timestamps@[i].size <= u64::MAX,
                self.stamps_refusal(commands@, k as int) is None,
                forall|j: int|
                    0 <= j < k ==> self.stamps_ok(#[trigger] commands@[j], timestamps@[j]@),
                !device_failed,
                self.has_queue(queue),
                self.serves_queue(queue, index as int),
                refusal == self.submission_refusal(
                    index as int,
                    commands@,
                    attachments@,
                    *flags,
                    render_failed,
                ),
            decreases commands@.len() - k,
        {
            let command: ClientCommand = commands[k];
            match self.resolve_all(&command) {
                Err(e) => {
                    proof {
                        self.lemma_stamps_refused(commands@, k as int, commands@.len() as int);
                        assert(refusal == Some(e));
                    }
                    return Err(e);
                },
                Ok(stamps) => {
                    timestamps.push(stamps);
                },
            }
            k += 1;
        }
        let vm: &Vm = &self.vms[index];
        if vm.render_broken {
            assert(refusal == Some(Error::EIO));
            return Err(Error::EIO);
        }
        match check_attachments(vm, attachments) {
            Err(e) => {
                assert(refusal == Some(e));
                return Err(e);
            },
            Ok(()) => {},
        }
        let (parameters, renders, computes): (Vec<CommandParameters>, bool, bool) = match all_parameters(
            vm,
            flags,
            commands,
        ) {
            Err(e) => {
                assert(refusal == Some(e));
                return Err(e);
            },
            Ok(found) => found,
        };
        let render_setup: bool = renders && !vm.render_ready;
        let compute_setup: bool = computes && !vm.compute_ready;
        if render_failed && (render_setup || compute_setup) {
            assert(refusal == Some(Error::EIO));
            return Err(Error::EIO);
        }
        assert(refusal is None);
        Ok(Submission { vm: index, timestamps, parameters, render_setup, compute_setup })
    }
}

/// Checks that all attachments can be written.
fn check_attachments(vm: &Vm, attachments: &Vec<(u64, u64)>) -> (out: Result<(), Error>)
    ensures
        out == if attachments_ok(*vm, attachments@) {
            Ok::<(), Error>(())
        } else {
            Err(Error::EINVAL)
        },
{
    let mut i: usize = 0;
    while i < attachments.len()
        invariant
            i <= attachments@.len(),
            forall|j: int|
                0 <= j < i ==> mapping::range_covered(
                    vm.mappings@,
                    (#[trigger] attachments@[j]).0 as int,
                    attachments@[j].1 as int,
                    4,
                ),
        decreases attachments@.len() - i,
    {
        let (pointer, size): (u64, u64) = attachments[i];
        match cover(&vm.mappings, pointer, size, 4) {
            Err(e) => {
                assert(!mapping::range_covered(
                    vm.mappings@,
                    attachments@[i as int].0 as int,
                    attachments@[i as int].1 as int,
                    4,
                ));
                return Err(e);
            },
            Ok(()) => {},
        }
        i += 1;
    }
    Ok(())
}

proof fn lemma_parameters_refused(vm: Vm, flags: RenderFlags, commands: Seq<ClientCommand>, k: int, n: int)
    requires
        0 <= k < n <= commands.len(),
        parameters_refusal(vm, flags, commands, k) is None,
        parameters_of(vm, flags, commands[k]) is Err,
    ensures
        parameters_refusal(vm, flags, commands, n) == Some(parameters_of(vm, flags, commands[k])->Err_0),
    decreases n,
{
    if k + 1 < n {
        lemma_parameters_refused(vm, flags, commands, k, n - 1);
    }
}

/// What all commands are run with, and of which kinds they are.
fn all_parameters(vm: &Vm, flags: &RenderFlags, commands: &Vec<ClientCommand>) -> (out: Result<
    (Vec<CommandParameters>, bool, bool),
    Error,
>)
    ensures
        match out {
            Ok((parameters, renders, computes)) => {
                &&& parameters_refusal(*vm, *flags, commands@, commands@.len() as int) is None
                &&& parameters@.len() == commands@.len()
                &&& forall|k: int|
                    0 <= k < commands@.len() ==> parameters_of(*vm, *flags, #[trigger] commands@[k])
                        == Ok::<CommandParameters, Error>(parameters@[k])
                &&& renders == has_render(commands@)
                &&& computes == has_compute(commands@)
            },
            Err(e) => parameters_refusal(*vm, *flags, commands@, commands@.len() as int) == Some(e),
        },
{
    let mut parameters: Vec<CommandParameters> = Vec::new();
    let mut renders: bool = false;
    let mut computes: bool = false;
    let mut k: usize = 0;
    while k < commands.len()
        invariant
            k <= commands@.len(),
            parameters@.len() == k,
            parameters_refusal(*vm, *flags, commands@, k as int) is None,
            forall|j: int|
                0 <= j < k ==> parameters_of(*vm, *flags, #[trigger] commands@[j]) == Ok::<
                    CommandParameters,
                    Error,
                >(parameters@[j]),
            renders == exists|j: int| 0 <= j < k && is_render(#[trigger] commands@[j]),
            computes == exists|j: int| 0 <= j < k && !is_render(#[trigger] commands@[j]),
        decreases commands@.len() - k,
    {
        let ghost was = (renders, computes);
        let found: Result<CommandParameters, Error> = match &commands[k] {
            ClientCommand::Render(c, _) => {
                renders = true;
                match render_parameters(c, flags, &vm.mappings, vm.kernel_start, vm.kernel_end) {
                    Err(e) => Err(e),
                    Ok(p) => Ok(CommandParameters::Render(p)),
                }
            },
            ClientCommand::Compute(c, _) => {
                computes = true;
                match compute_parameters(c, &vm.mappings) {
                    Err(e) => Err(e),
                    Ok(p) => Ok(CommandParameters::Compute(p)),
                }
            },
        };
        assert(found == parameters_of(*vm, *flags, commands@[k as int]));
        match found {
            Err(e) => {
                proof {
                    lemma_parameters_refused(*vm, *flags, commands@, k as int, commands@.len() as int);
                }
                return Err(e);
            },
            Ok(p) => {
                parameters.push(p);
            },
        }
        proof {
            assert(is_render(commands@[k as int]) || !is_render(commands@[k as int]));
            if was.0 {
                let j = choose|j: int| 0 <= j < k && is_render(#[trigger] commands@[j]);
                assert(is_render(commands@[j]));
            }
            if was.1 {
                let j = choose|j: int| 0 <= j < k && !is_render(#[trigger] commands@[j]);
                assert(!is_render(commands@[j]));
            }
        }
        k += 1;
    }
    Ok((parameters, renders, computes))
}

impl Vm {
    /// Notes that a private range is being set up. Until that is done, the address space cannot be used.
    pub fn begin_setup(&mut self)
        ensures
            *final(self) == (Vm { render_broken: true, ..*old(self) }),
    {
        self.render_broken = true;
    }

    /// Notes that the private ranges of renders, or of computes, are set up.
    pub fn finish_setup(&mut self, render: bool)
        ensures
            *final(self) == (Vm {
                render_broken: false,
                render_ready: old(self).render_ready || render,
                compute_ready: old(self).compute_ready || !render,
                ..*old(self)
            }),
    {
        if render {
            self.render_ready = true;
        } else {
            self.compute_ready = true;
        }
        self.render_broken = false;
    }
}

/// An address space whose set-up was not finished refuses every submission.
pub proof fn lemma_broken_refuses(
    state: FileState,
    i: int,
    commands: Seq<ClientCommand>,
    attachments: Seq<(u64, u64)>,
    flags: RenderFlags,
    render_failed: bool,
)
    requires
        state.vms@[i].render_broken,
    ensures
        state.submission_refusal(i, commands, attachments, flags, render_failed) is Some,
{
}

/// An address space is set up once: afterwards submissions need no set-up.
pub proof fn lemma_set_up_once(state: FileState, out: Submission, commands: Seq<ClientCommand>, flags: RenderFlags)
    requires
        state.submission_ok(out, commands, flags),
        state.vms@[out.vm as int].render_ready,
        state.vms@[out.vm as int].compute_ready,
    ensures
        !out.render_setup,
        !out.compute_setup,
{
}

} // verus!
