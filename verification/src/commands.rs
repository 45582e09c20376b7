//! Requests of clients: command streams, waits and bindings.
use crate::bytes;
use crate::bytes::{get32, get64};
use crate::client::VM_END;
use crate::compute;
use crate::compute::private_ranges;
use crate::error::Error;
use crate::lanes::Stamp;
use crate::operands::fixed_ranges;
use crate::prot::{prot_gpu_shared_ro, prot_gpu_shared_rw, prot_gpu_shared_wo, Prot};
use vstd::prelude::*;

verus! {

/// A barrier that waits for nothing.
pub const NO_BARRIER: u16 = 0xffff;

/// Size of the header of a command.
pub const HEADER_SIZE: usize = 8;

/// Size of an attachment record.
pub const ATTACHMENT_SIZE: usize = 24;

/// Most commands of one submission.
pub const MAX_COMMANDS: u16 = 64;

/// Kinds of commands.
#[derive(Clone, Copy, Debug, PartialEq, Eq, Structural)]
pub enum CommandKind {
    Render,
    Compute,
    Attachments,
}

/// The header of a command. A kind that is not known is none.
#[derive(Clone, Copy, Debug, PartialEq, Eq, Structural)]
pub struct Header {
    pub kind: Option<CommandKind>,
    pub size: u16,
    pub vdm_barrier: u16,
    pub cdm_barrier: u16,
}

/// Where the reading of a command stream stands.
#[derive(Clone, Copy, Debug, PartialEq, Eq, Structural)]
pub struct Stream {
    pub length: usize,
    pub offset: usize,
    pub renders: u16,
    pub computes: u16,
}

/// Whether a barrier refers to the work before the submission, or to one of `count` commands before.
pub open spec fn barrier_ok(barrier: u16, count: u16) -> bool {
    barrier == NO_BARRIER || barrier <= count
}

/// Checks the head of a submission.
pub fn check_submit(flags: u32, pad: u32, size: u32, in_syncs: u32, out_syncs: u32) -> (out: Result<
    (),
    Error,
>)
    ensures
        out == if flags == 0 && pad == 0 && 0 < size <= 0x10_0000 && in_syncs <= 4096 && out_syncs
            <= 4096 {
            Ok::<(), Error>(())
        } else {
            Err(Error::EINVAL)
        },
{
    if flags != 0 || pad != 0 || size == 0 || size > 0x10_0000 || in_syncs > 4096 || out_syncs > 4096 {
        return Err(Error::EINVAL);
    }
    Ok(())
}

impl Stream {
    /// What holds while a stream is read.
    pub open spec fn wf(self) -> bool {
        self.offset <= self.length <= 0x10_0000 && self.renders + self.computes <= MAX_COMMANDS
    }

    /// Starts reading a stream.
    pub fn new(length: usize) -> (out: Self)
        requires
            length <= 0x10_0000,
        ensures
            out.wf(),
            out == (Stream { length, offset: 0, renders: 0, computes: 0 }),
    {
        Stream { length, offset: 0, renders: 0, computes: 0 }
    }

    /// The place of the next header, or none at the end of the stream.
    pub fn next_header(&self) -> (out: Result<Option<usize>, Error>)
        requires
            self.wf(),
        ensures
            out == if self.offset == self.length {
                Ok::<Option<usize>, Error>(None)
            } else if self.offset + HEADER_SIZE <= self.length {
                Ok(Some(self.offset))
            } else {
                Err(Error::EINVAL)
            },
    {
        if self.offset == self.length {
            return Ok(None);
        }
        if self.offset + HEADER_SIZE > self.length {
            return Err(Error::EINVAL);
        }
        Ok(Some(self.offset))
    }

    /// Why a command is refused, if it is.
    pub open spec fn refusal(self, header: Header) -> Option<Error> {
        let size = header.size as int;
        if self.offset + HEADER_SIZE + size > self.length {
            Some(Error::EINVAL)
        } else {
            match header.kind {
                None => Some(Error::ENOTSUPP),
                Some(CommandKind::Attachments) => if header.vdm_barrier == NO_BARRIER
                    && header.cdm_barrier == NO_BARRIER && size % 24 == 0 && size / 24 <= 16 {
                    None
                } else {
                    Some(Error::EINVAL)
                },
                _ => if barrier_ok(header.vdm_barrier, self.renders) && barrier_ok(
                    header.cdm_barrier,
                    self.computes,
                ) && self.renders + self.computes < MAX_COMMANDS {
                    None
                } else {
                    Some(Error::EINVAL)
                },
            }
        }
    }

    /// Takes the command behind a header. Answers the range of its payload. Barriers count renders and
    /// computes from one; zero is what came before the submission.
    pub fn accept(&mut self, header: &Header) -> (out: Result<(usize, usize), Error>)
        requires
            old(self).wf(),
            old(self).offset + HEADER_SIZE <= old(self).length,
        ensures
            final(self).wf(),
            match out {
                Ok((start, end)) => {
                    &&& old(self).refusal(*header) is None
                    &&& start == old(self).offset + HEADER_SIZE
                    &&& end == start + header.size
                    &&& end <= old(self).length
                    &&& *final(self) == (Stream {
                        offset: end,
                        renders: (old(self).renders + if header.kind == Some(CommandKind::Render) {
                            1int
                        } else {
                            0
                        }) as u16,
                        computes: (old(self).computes + if header.kind == Some(CommandKind::Compute) {
                            1int
                        } else {
                            0
                        }) as u16,
                        ..*old(self)
                    })
                },
                Err(e) => old(self).refusal(*header) == Some(e) && *final(self) == *old(self),
            },
    {
        let start: usize = self.offset + HEADER_SIZE;
        let size: usize = header.size as usize;
        if start + size > self.length {
            return Err(Error::EINVAL);
        }
        match header.kind {
            None => {
                return Err(Error::ENOTSUPP);
            },
            Some(CommandKind::Attachments) => {
                if header.vdm_barrier != NO_BARRIER || header.cdm_barrier != NO_BARRIER || size
                    % ATTACHMENT_SIZE != 0 || size / ATTACHMENT_SIZE > 16 {
                    return Err(Error::EINVAL);
                }
            },
            Some(kind) => {
                if (header.vdm_barrier != NO_BARRIER && header.vdm_barrier > self.renders) || (
                header.cdm_barrier != NO_BARRIER && header.cdm_barrier > self.computes) || self.renders
                    + self.computes == MAX_COMMANDS {
                    return Err(Error::EINVAL);
                }
                match kind {
                    CommandKind::Render => {
                        self.renders = self.renders + 1;
                    },
                    _ => {
                        self.computes = self.computes + 1;
                    },
                }
            },
        }
        self.offset = start + size;
        Ok((start, start + size))
    }

    /// Ends a stream, which has to hold a command.
    pub fn finish(&self) -> (out: Result<(), Error>)
        requires
            self.wf(),
        ensures
            out == if self.renders + self.computes > 0 {
                Ok::<(), Error>(())
            } else {
                Err(Error::EINVAL)
            },
    {
        if self.renders == 0 && self.computes == 0 {
            return Err(Error::EINVAL);
        }
        Ok(())
    }
}

/// Checks an attachment.
pub fn check_attachment(flags: u32, pad: u32, pointer: u64, size: u64) -> (out: Result<(), Error>)
    ensures
        out == if flags == 0 && pad == 0 && pointer + size <= u64::MAX {
            Ok::<(), Error>(())
        } else {
            Err(Error::EINVAL)
        },
{
    if flags != 0 || pad != 0 || pointer.checked_add(size).is_none() {
        return Err(Error::EINVAL);
    }
    Ok(())
}

/// What a submission waits for or signals.
#[derive(Clone, Copy, Debug, PartialEq, Eq, Structural)]
pub struct SyncRecord {
    /// Whether a point of a timeline is meant.
    pub timeline: bool,
    pub handle: u32,
    pub point: u64,
}

/// Reads the record of a wait or a signal.
pub fn parse_sync(record: &[u8]) -> (out: Result<SyncRecord, Error>)
    requires
        record@.len() == 16,
    ensures
        ({
            let kind = bytes::u32_in(record@, 0);
            let point = bytes::u64_in(record@, 8);
            if kind > 1 || (kind == 0 && point != 0) {
                out is Err && out->Err_0 == Error::EINVAL
            } else {
                out is Ok && out->Ok_0 == (SyncRecord {
                    timeline: kind == 1,
                    handle: bytes::u32_in(record@, 4) as u32,
                    point: point as u64,
                })
            }
        }),
{
    let kind: u32 = get32(record, 0);
    let handle: u32 = get32(record, 4);
    let point: u64 = get64(record, 8);
    if kind > 1 || (kind == 0 && point != 0) {
        return Err(Error::EINVAL);
    }
    Ok(SyncRecord { timeline: kind == 1, handle, point })
}

/// What a barrier waits for in the history of its kind of command.
pub open spec fn waited_for(history: Seq<Option<Stamp>>, barrier: u16) -> Option<Stamp> {
    if barrier == NO_BARRIER {
        None
    } else {
        history[barrier as int]
    }
}

/// The stamps that a command waits for. The first entry of a history is the last completion before the
/// submission.
pub fn resolve_barriers(renders: &Vec<Option<Stamp>>, computes: &Vec<Option<Stamp>>, barriers: (u16, u16)) -> (out:
    Result<[Option<Stamp>; 2], Error>)
    ensures
        ({
            let known = (barriers.0 == NO_BARRIER || barriers.0 < renders@.len()) && (barriers.1
                == NO_BARRIER || barriers.1 < computes@.len());
            match out {
                Ok(stamps) => known && stamps@ == seq![
                    waited_for(renders@, barriers.0),
                    waited_for(computes@, barriers.1),
                ],
                Err(e) => e == Error::EIO && !known,
            }
        }),
{
    let mut first: Option<Stamp> = None;
    let mut second: Option<Stamp> = None;
    if barriers.0 != NO_BARRIER {
        if barriers.0 as usize >= renders.len() {
            return Err(Error::EIO);
        }
        first = renders[barriers.0 as usize];
    }
    if barriers.1 != NO_BARRIER {
        if barriers.1 as usize >= computes.len() {
            return Err(Error::EIO);
        }
        second = computes[barriers.1 as usize];
    }
    let out: [Option<Stamp>; 2] = [first, second];
    assert(out@ =~= seq![waited_for(renders@, barriers.0), waited_for(computes@, barriers.1)]);
    Ok(out)
}

/// The barriers of an accepted command can be resolved once all commands before it are published: the
/// histories then hold one entry more than there are commands of each kind.
pub proof fn lemma_barriers_resolve(
    stream: Stream,
    header: Header,
    renders: Seq<Option<Stamp>>,
    computes: Seq<Option<Stamp>>,
)
    requires
        stream.wf(),
        stream.refusal(header) is None,
        header.kind != Some(CommandKind::Attachments),
        renders.len() == 1 + stream.renders,
        computes.len() == 1 + stream.computes,
    ensures
        header.vdm_barrier == NO_BARRIER || header.vdm_barrier < renders.len(),
        header.cdm_barrier == NO_BARRIER || header.cdm_barrier < computes.len(),
{
}

/// Flag of a request that unbinds.
pub const BIND_UNBIND: u32 = 1;

/// Flag of a binding that can be read.
pub const BIND_READ: u32 = 2;

/// Flag of a binding that can be written.
pub const BIND_WRITE: u32 = 4;

/// Flag of a binding that repeats one page.
pub const BIND_SINGLE_PAGE: u32 = 8;

/// Checks the head of a request to bind. Answers the size of its records.
pub fn check_vm_bind(pad: u32, num_binds: u32, stride: u32) -> (out: Result<u64, Error>)
    ensures
        ({
            let size = stride * num_binds;
            if pad != 0 || num_binds > 4096 || stride == 0 || size > 0x10_0000 {
                out is Err && out->Err_0 == Error::EINVAL
            } else {
                out is Ok && out->Ok_0 == size
            }
        }),
{
    if pad != 0 || num_binds > 4096 || stride == 0 {
        return Err(Error::EINVAL);
    }
    assert(stride * num_binds <= 0xffff_ffff * 4096) by (nonlinear_arith)
        requires
            stride <= 0xffff_ffff,
            num_binds <= 4096,
    ;
    let size: u64 = stride as u64 * num_binds as u64;
    if size > 0x10_0000 {
        return Err(Error::EINVAL);
    }
    Ok(size)
}

/// Whether two ranges meet.
pub open spec fn ranges_meet(start: int, end: int, base: int, limit: int) -> bool {
    start < limit && base < end
}

/// A range of the device's compute storage.
pub open spec fn compute_range(i: int) -> (int, int) {
    if i == 0 {
        (compute::DIRECTORY as int, compute::DIRECTORY as int + compute::DIRECTORY_SIZE)
    } else if i == 1 {
        (compute::SCRATCH as int, compute::SCRATCH as int + 0x20000)
    } else if i == 2 {
        (compute::MARKER as int, compute::MARKER as int + 0x4000)
    } else {
        let base = compute::BUFFER_BASE + (i - 3) * compute::BUFFER_STRIDE;
        (base, base + compute::BUFFER_SIZE)
    }
}

/// A range at a fixed address that renders use.
pub open spec fn render_range(i: int) -> (int, int) {
    if i == 0 {
        (0x10_0008_0000, 0x10_0008_4000)
    } else if i == 1 {
        (0x10_0025_8000, 0x10_0027_4000)
    } else if i == 2 {
        (0x10_0024_0000, 0x10_0024_4000)
    } else {
        let base = 0x10_0008_8000 + (i - 3) * 0x28000;
        (base, base + 0x20000)
    }
}

/// A range that the device uses in every address space: aliases of work, and the opening client's
/// storage.
pub open spec fn device_range(i: int) -> (int, int) {
    if i == 0 {
        (0x71_0000_0000, 0x73_0000_0000)
    } else if i == 1 {
        (0x70_0000_0000, 0x70_0040_0000)
    } else if i == 2 {
        (0x70_0040_8000, 0x70_0041_8000)
    } else if i == 3 {
        (0x70_0042_0000, 0x70_02cb_8000)
    } else {
        (0x70_0310_8000, 0x70_0518_0000)
    }
}

/// Whether a range is kept for the driver in every address space.
pub open spec fn is_reserved(start: int, end: int) -> bool {
    ||| exists|i: int|
        0 <= i < 5 && #[trigger] ranges_meet(start, end, device_range(i).0, device_range(i).1)
    ||| exists|i: int|
        0 <= i < 19 && #[trigger] ranges_meet(start, end, compute_range(i).0, compute_range(i).1)
    ||| exists|i: int|
        0 <= i < 14 && #[trigger] ranges_meet(start, end, render_range(i).0, render_range(i).1)
}

/// Whether a client can bind something at a range.
pub open spec fn range_ok(address: u64, size: u64, offset: u64, kernel_start: u64, kernel_end: u64) -> bool {
    let end = address + size;
    &&& size > 0
    &&& address % 0x4000 == 0
    &&& size % 0x4000 == 0
    &&& offset % 0x4000 == 0
    &&& 0x4000 <= address
    &&& end <= VM_END
    &&& !ranges_meet(address as int, end, kernel_start as int, kernel_end as int)
    &&& !is_reserved(address as int, end)
}

/// Whether a range is kept for the driver.
fn reserved(start: u64, end: u64) -> (out: bool)
    ensures
        out == is_reserved(start as int, end as int),
{
    let fixed: [(u64, u64); 5] = [
        (0x71_0000_0000, 0x73_0000_0000),
        (0x70_0000_0000, 0x70_0040_0000),
        (0x70_0040_8000, 0x70_0041_8000),
        (0x70_0042_0000, 0x70_02cb_8000),
        (0x70_0310_8000, 0x70_0518_0000),
    ];
    let mut i: usize = 0;
    while i < 5
        invariant
            i <= 5,
            forall|j: int|
                0 <= j < 5 ==> (#[trigger] fixed@[j]).0 == device_range(j).0 && fixed@[j].1
                    == device_range(j).1,
            forall|j: int|
                0 <= j < i ==> !#[trigger] ranges_meet(
                    start as int,
                    end as int,
                    device_range(j).0,
                    device_range(j).1,
                ),
        decreases 5 - i,
    {
        if start < fixed[i].1 && fixed[i].0 < end {
            assert(ranges_meet(
                start as int,
                end as int,
                device_range(i as int).0,
                device_range(i as int).1,
            ));
            return true;
        }
        i += 1;
    }
    let private: [(u64, usize); 19] = private_ranges();
    let mut j: usize = 0;
    while j < 19
        invariant
            j <= 19,
            forall|k: int|
                0 <= k < 19 ==> (#[trigger] private@[k]).0 == compute_range(k).0 && private@[k].0
                    + private@[k].1 == compute_range(k).1,
            forall|k: int|
                0 <= k < j ==> !#[trigger] ranges_meet(
                    start as int,
                    end as int,
                    compute_range(k).0,
                    compute_range(k).1,
                ),
        decreases 19 - j,
    {
        let base: u64 = private[j].0;
        assert(private@[j as int].0 + private@[j as int].1 == compute_range(j as int).1);
        if start < base + private[j].1 as u64 && base < end {
            assert(ranges_meet(
                start as int,
                end as int,
                compute_range(j as int).0,
                compute_range(j as int).1,
            ));
            return true;
        }
        j += 1;
    }
    let aliases: [(u64, usize); 14] = fixed_ranges();
    let mut k: usize = 0;
    while k < 14
        invariant
            k <= 14,
            forall|l: int|
                0 <= l < 14 ==> (#[trigger] aliases@[l]).0 == render_range(l).0 && aliases@[l].0
                    + aliases@[l].1 == render_range(l).1,
            forall|l: int|
                0 <= l < k ==> !#[trigger] ranges_meet(
                    start as int,
                    end as int,
                    render_range(l).0,
                    render_range(l).1,
                ),
        decreases 14 - k,
    {
        let base: u64 = aliases[k].0;
        assert(aliases@[k as int].0 + aliases@[k as int].1 == render_range(k as int).1);
        if start < base + aliases[k].1 as u64 && base < end {
            assert(ranges_meet(
                start as int,
                end as int,
                render_range(k as int).0,
                render_range(k as int).1,
            ));
            return true;
        }
        k += 1;
    }
    false
}

/// What a record of a request to bind asks for.
#[derive(Clone, Copy, Debug, PartialEq, Eq, Structural)]
pub enum BindAction {
    Unbind,
    Bind { read: bool, write: bool, single: bool },
}

/// The access that a binding gives the device. One that neither reads nor writes is never granted.
pub fn bind_access(read: bool, write: bool) -> Prot
    returns
        (if read && write {
            prot_gpu_shared_rw()
        } else if read {
            prot_gpu_shared_ro()
        } else {
            prot_gpu_shared_wo()
        }),
{
    if read && write {
        prot_gpu_shared_rw()
    } else if read {
        prot_gpu_shared_ro()
    } else {
        prot_gpu_shared_wo()
    }
}

/// What a record of a request to bind asks for, where it can be granted.
pub open spec fn bind_action_of(
    flags: u32,
    handle: u32,
    offset: u64,
    size: u64,
    address: u64,
    kernel_start: u64,
    kernel_end: u64,
) -> Option<BindAction> {
    if !range_ok(address, size, offset, kernel_start, kernel_end) {
        None
    } else if flags == BIND_UNBIND {
        if handle == 0 && offset == 0 {
            Some(BindAction::Unbind)
        } else {
            None
        }
    } else if flags & !0xe != 0 || (flags & BIND_READ == 0 && flags & BIND_WRITE == 0) {
        None
    } else {
        Some(
            BindAction::Bind {
                read: flags & BIND_READ != 0,
                write: flags & BIND_WRITE != 0,
                single: flags & BIND_SINGLE_PAGE != 0,
            },
        )
    }
}

/// Checks a record of a request to bind.
pub fn check_bind_record(
    flags: u32,
    handle: u32,
    offset: u64,
    size: u64,
    address: u64,
    kernel_start: u64,
    kernel_end: u64,
) -> (out: Result<BindAction, Error>)
    ensures
        match out {
            Ok(action) => bind_action_of(
                flags,
                handle,
                offset,
                size,
                address,
                kernel_start,
                kernel_end,
            ) == Some(action),
            Err(e) => e == Error::EINVAL && bind_action_of(
                flags,
                handle,
                offset,
                size,
                address,
                kernel_start,
                kernel_end,
            ) is None,
        },
{
    let end: u64 = match address.checked_add(size) {
        None => {
            return Err(Error::EINVAL);
        },
        Some(end) => end,
    };
    if size == 0 || address % 0x4000 != 0 || size % 0x4000 != 0 || offset % 0x4000 != 0 || address
        < 0x4000 || end > VM_END || (address < kernel_end && kernel_start < end) || reserved(
        address,
        end,
    ) {
        return Err(Error::EINVAL);
    }
    if flags == BIND_UNBIND {
        if handle != 0 || offset != 0 {
            return Err(Error::EINVAL);
        }
        return Ok(BindAction::Unbind);
    }
    let read: bool = flags & BIND_READ != 0;
    let write: bool = flags & BIND_WRITE != 0;
    let single: bool = flags & BIND_SINGLE_PAGE != 0;
    if flags & !0xe != 0 || (!read && !write) {
        return Err(Error::EINVAL);
    }
    Ok(BindAction::Bind { read, write, single })
}

/// Checks that a buffer can be bound: a private one only by its owner, in its address space, and no
/// buffer past its end.
pub fn check_bind_object(
    object: (u32, u64),
    vm: u32,
    file: u64,
    offset: u64,
    size: u64,
    single: bool,
    object_size: u64,
) -> (out: Result<(), Error>)
    ensures
        ({
            let shared = object.0 == 0 || (object.0 == vm && object.1 == file);
            let needed = offset + if single {
                0x4000int
            } else {
                size as int
            };
            out == if shared && needed <= object_size {
                Ok::<(), Error>(())
            } else {
                Err(Error::EINVAL)
            }
        }),
{
    if object.0 != 0 && (object.0 != vm || object.1 != file) {
        return Err(Error::EINVAL);
    }
    let part: u64 = if single {
        0x4000
    } else {
        size
    };
    match offset.checked_add(part) {
        None => Err(Error::EINVAL),
        Some(end) => {
            if end > object_size {
                return Err(Error::EINVAL);
            }
            Ok(())
        },
    }
}

/// A binding never meets what the driver keeps for itself in an address space.
pub proof fn lemma_bindings_clear(
    flags: u32,
    handle: u32,
    offset: u64,
    size: u64,
    address: u64,
    kernel_start: u64,
    kernel_end: u64,
)
    requires
        bind_action_of(flags, handle, offset, size, address, kernel_start, kernel_end) is Some,
    ensures
        address + size <= VM_END,
        !ranges_meet(
            address as int,
            address + size,
            kernel_start as int,
            kernel_end as int,
        ),
        forall|i: int|
            0 <= i < 19 ==> !#[trigger] ranges_meet(
                address as int,
                address + size,
                compute_range(i).0,
                compute_range(i).1,
            ),
        forall|i: int|
            0 <= i < 14 ==> !#[trigger] ranges_meet(
                address as int,
                address + size,
                render_range(i).0,
                render_range(i).1,
            ),
        forall|i: int|
            0 <= i < 5 ==> !#[trigger] ranges_meet(
                address as int,
                address + size,
                device_range(i).0,
                device_range(i).1,
            ),
{
}

} // verus!
