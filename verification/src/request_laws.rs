//! What holds of the requests of clients: what is read of them, what is refused, and what is admitted.
use crate::admission;
use crate::bytes;
use crate::client::{FileState, Vm};
use crate::cmdbuf;
use crate::cmdbuf::{Codes, Contents, Entry};
use crate::commands;
use crate::commands::{CommandKind, Header, Stream};
use crate::contexts;
use crate::contexts::Contexts;
use crate::error::Error;
use crate::flights;
use crate::flights::{Cursors, Publication, Refusal, Session};
use crate::lanes::{FirmwareQueues, Lane, Stamp};
use crate::launch;
use crate::mapping;
use crate::operands::OperandPool;
use crate::params::RenderFlags;
use crate::submission;
use crate::submission::{ClientCommand, TimestampRef};
use crate::submit;
use vstd::prelude::*;

verus! {

/// The entry of a context holds its root and its number, and is valid.
pub proof fn lemma_context_entry(ttb: u64, asid: u8)
    requires
        ttb < 0x1_0000_0000_0000,
        ttb % 0x4000 == 0,
    ensures
        contexts::entry_of(ttb, asid as int) / 0x1_0000_0000_0000 == asid,
        contexts::entry_of(ttb, asid as int) % 0x1_0000_0000_0000 == ttb + 1,
        contexts::entry_of(ttb, asid as int) <= u64::MAX,
{
}

/// A root that is bound is served by the context that it is bound to, whatever is preferred.
pub proof fn lemma_bound_serves(c: Contexts, i: int, slot: int, low: u64, preferred: int)
    requires
        c.wf(),
        1 <= i < 64,
        c.roots@[i] is Some,
        c.roots@[i]->0.low == low,
    ensures
        c.serves(slot, low, preferred) <==> slot == i,
{
    assert(c.bound(i, low));
    if c.bound(slot, low) && 1 <= slot < 64 && slot != i {
        if slot < i {
            assert(c.roots@[slot]->0.low != c.roots@[i]->0.low);
        } else {
            assert(c.roots@[i]->0.low != c.roots@[slot]->0.low);
        }
    }
}

/// A root that is not bound is served by a context without users: the preferred one where it is such a one,
/// and else the first. Context zero serves none.
pub proof fn lemma_unbound_serves(c: Contexts, slot: int, low: u64, preferred: int)
    requires
        c.wf(),
        1 <= preferred < 64,
        forall|i: int| 1 <= i < 64 ==> !((#[trigger] c.roots@[i]) is Some && c.roots@[i]->0.low == low),
    ensures
        c.serves(slot, low, preferred) ==> 1 <= slot < 64 && c.users@[slot] == 0,
        c.users@[preferred] == 0 ==> (c.serves(slot, low, preferred) <==> slot == preferred),
        c.users@[preferred] != 0 && c.serves(slot, low, preferred) ==> forall|i: int|
            1 <= i < slot ==> #[trigger] c.users@[i] != 0,
        c.users@[preferred] != 0 && 1 <= slot < 64 && c.users@[slot] == 0 && (forall|i: int|
            1 <= i < slot ==> #[trigger] c.users@[i] != 0) ==> c.serves(slot, low, preferred),
{
    assert forall|i: int| 1 <= i < 64 implies !#[trigger] c.bound(i, low) by {
        assert(!(c.roots@[i] is Some && c.roots@[i]->0.low == low));
    }
}

/// There is a context for a root exactly when one is bound to it or one has no users.
pub proof fn lemma_context_had(c: Contexts, low: u64)
    ensures
        c.has_context(low) <==> exists|i: int|
            1 <= i < 64 && (c.users@[i] == 0 || ((#[trigger] c.roots@[i]) is Some && c.roots@[i]->0.low == low)),
{
    if c.has_context(low) {
        let i = choose|i: int| 1 <= i < 64 && #[trigger] c.usable(i, low);
        assert(c.users@[i] == 0 || (c.roots@[i] is Some && c.roots@[i]->0.low == low));
    }
    if exists|i: int|
        1 <= i < 64 && (c.users@[i] == 0 || ((#[trigger] c.roots@[i]) is Some && c.roots@[i]->0.low == low)) {
        let i = choose|i: int|
            1 <= i < 64 && (c.users@[i] == 0 || ((#[trigger] c.roots@[i]) is Some && c.roots@[i]->0.low
                == low));
        assert(c.usable(i, low));
    }
}

/// Translations of a root are held by the contexts that are bound to it, and by context zero where it is the
/// device's own.
pub proof fn lemma_context_shows(c: Contexts, i: int, device: u64, low: u64)
    ensures
        c.shows(0, device, low) <==> device == low,
        i != 0 ==> (c.shows(i, device, low) <==> c.roots@[i] is Some && c.roots@[i]->0.low == low),
{
}

/// A header has four half words: the code of its kind, the size of what follows, and the two barriers.
pub proof fn lemma_header(buffer: Seq<u8>, codes: Codes, at: int)
    requires
        0 <= at,
        at + 8 <= buffer.len(),
    ensures
        ({
            let h = cmdbuf::header_at(buffer, codes, at);
            let code = buffer[at] + 0x100 * buffer[at + 1];
            &&& h.size == buffer[at + 2] + 0x100 * buffer[at + 3]
            &&& h.vdm_barrier == buffer[at + 4] + 0x100 * buffer[at + 5]
            &&& h.cdm_barrier == buffer[at + 6] + 0x100 * buffer[at + 7]
            &&& h.kind == Some(CommandKind::Render) <==> code == codes.render
            &&& h.kind == Some(CommandKind::Compute) <==> code == codes.compute && code != codes.render
            &&& h.kind is None <==> code != codes.render && code != codes.compute && code != codes.vertex && code
                != codes.fragment && code != codes.kernel
        }),
{
}

/// A render or a compute is taken exactly when its payload is inside the buffer, fewer than 64 commands came
/// before it, and its barriers are none or count no more commands of a kind than came before it.
pub proof fn lemma_command_taken(s: Stream, h: Header)
    requires
        s.wf(),
        h.kind == Some(CommandKind::Render) || h.kind == Some(CommandKind::Compute),
    ensures
        s.refusal(h) is None <==> {
            &&& s.offset + 8 + h.size <= s.length
            &&& s.renders + s.computes < 64
            &&& h.vdm_barrier == 0xffff || h.vdm_barrier <= s.renders
            &&& h.cdm_barrier == 0xffff || h.cdm_barrier <= s.computes
        },
        s.refusal(h) is Some ==> s.refusal(h)->0 == Error::EINVAL,
{
}

/// Attachments are taken exactly when they are inside the buffer, whole, no more than 16, and without barriers.
pub proof fn lemma_attachments_taken(s: Stream, h: Header)
    requires
        s.wf(),
        h.kind == Some(CommandKind::Attachments),
    ensures
        s.refusal(h) is None <==> {
            &&& s.offset + 8 + h.size <= s.length
            &&& h.vdm_barrier == 0xffff && h.cdm_barrier == 0xffff
            &&& exists|n: int| 0 <= n <= 16 && h.size == #[trigger] (24 * n)
        },
        s.refusal(h) is Some ==> s.refusal(h)->0 == Error::EINVAL,
{
    let n = h.size as int / 24;
    assert(24 * n == h.size || h.size as int % 24 != 0);
}

/// A kind that is not known is not supported, unless its size is wrong to begin with.
pub proof fn lemma_unknown_refused(s: Stream, h: Header)
    requires
        s.wf(),
        h.kind is None,
    ensures
        s.refusal(h) == Some(
            if s.offset + 8 + h.size <= s.length {
                Error::ENOTSUPP
            } else {
                Error::EINVAL
            },
        ),
{
}

/// Attachments behind each other are read in order, 24 bytes each: an address and a size that do not wrap, and
/// two words that have to be zero.
pub proof fn lemma_attachments(buffer: Seq<u8>, at: int, n: nat, i: int)
    requires
        0 <= i < n,
    ensures
        cmdbuf::attachments_in(buffer, at, n) matches Some(list) ==> {
            let pointer = bytes::u64_in(buffer, at + 24 * i);
            let size = bytes::u64_in(buffer, at + 24 * i + 8);
            &&& list.len() == n
            &&& list[i].0 == pointer as u64
            &&& list[i].1 == size as u64
            &&& pointer + size <= 0xffff_ffff_ffff_ffff
            &&& bytes::u32_in(buffer, at + 24 * i + 16) == 0
            &&& bytes::u32_in(buffer, at + 24 * i + 20) == 0
        },
    decreases n,
{
    if i < n - 1 {
        lemma_attachments(buffer, at, (n - 1) as nat, i);
    } else if n > 1 {
        lemma_attachments(buffer, at, (n - 1) as nat, 0);
    } else {
        assert(cmdbuf::attachments_in(buffer, at, 0) == Some(Seq::<(u64, u64)>::empty()));
    }
}

/// The number of commands from a place of a buffer on, by the headers that follow each other there.
pub open spec fn commands_from(buffer: Seq<u8>, codes: Codes, at: int) -> int
    decreases buffer.len() - at,
{
    let code = buffer[at] + 0x100 * buffer[at + 1];
    let size = buffer[at + 2] + 0x100 * buffer[at + 3];
    if at < 0 || at + 8 + size > buffer.len() {
        0
    } else {
        commands_from(buffer, codes, at + 8 + size) + if code == codes.render || code == codes.compute {
            1int
        } else {
            0
        }
    }
}

/// No command is lost, none is made up, and what was read before stays as it was: a buffer adds as many commands
/// as it has headers of renders and computes.
pub proof fn lemma_commands_kept(buffer: Seq<u8>, codes: Codes, at: int, done: Contents)
    requires
        0 <= at,
    ensures
        cmdbuf::contents(buffer, codes, at, done) matches Ok(all) ==> {
            &&& all.commands.len() == done.commands.len() + commands_from(buffer, codes, at)
            &&& all.commands.len() > 0
            &&& forall|i: int| 0 <= i < done.commands.len() ==> #[trigger] all.commands[i] == done.commands[i]
            &&& all.attachments.len() >= done.attachments.len()
            &&& forall|i: int|
                0 <= i < done.attachments.len() ==> #[trigger] all.attachments[i] == done.attachments[i]
        },
    decreases buffer.len() - at,
{
    if cmdbuf::contents(buffer, codes, at, done) is Ok && at < buffer.len() {
        lemma_header(buffer, codes, at);
        let h = cmdbuf::header_at(buffer, codes, at);
        let end = at + 8 + h.size;
        if h.kind == Some(CommandKind::Attachments) {
            let more = cmdbuf::attachments_in(buffer, at + 8, (h.size as int / 24) as nat)->0;
            let next = Contents { attachments: done.attachments + more, ..done };
            lemma_commands_kept(buffer, codes, end, next);
            let all = cmdbuf::contents(buffer, codes, at, done)->Ok_0;
            assert forall|i: int| 0 <= i < done.attachments.len() implies #[trigger] all.attachments[i]
                == done.attachments[i] by {
                assert(next.attachments[i] == done.attachments[i]);
            }
        } else {
            let entry = Entry {
                compute: h.kind == Some(CommandKind::Compute),
                start: (at + 8) as usize,
                end: end as usize,
                barriers: (h.vdm_barrier, h.cdm_barrier),
            };
            let next = Contents { commands: done.commands.push(entry), ..done };
            lemma_commands_kept(buffer, codes, end, next);
            let all = cmdbuf::contents(buffer, codes, at, done)->Ok_0;
            assert forall|i: int| 0 <= i < done.commands.len() implies #[trigger] all.commands[i]
                == done.commands[i] by {
                assert(next.commands[i] == done.commands[i]);
            }
        }
    }
}

/// Whether a command stands in a buffer, behind a place: its payload follows its header, is as long as that says,
/// and the command is of the kind and has the barriers that the header names.
pub open spec fn stands_in(buffer: Seq<u8>, codes: Codes, at: int, e: Entry) -> bool {
    let place = e.start - 8;
    let code = buffer[place] + 0x100 * buffer[place + 1];
    &&& at <= place
    &&& e.end <= buffer.len()
    &&& e.end - e.start == buffer[place + 2] + 0x100 * buffer[place + 3]
    &&& e.barriers.0 == buffer[place + 4] + 0x100 * buffer[place + 5]
    &&& e.barriers.1 == buffer[place + 6] + 0x100 * buffer[place + 7]
    &&& if e.compute {
        code == codes.compute
    } else {
        code == codes.render
    }
}

/// Every command that is read stands in the buffer, and they stand there in the order in which they are read.
pub proof fn lemma_commands_stand(buffer: Seq<u8>, codes: Codes, at: int, done: Contents, i: int)
    requires
        0 <= at,
        buffer.len() <= 0x10_0000,
    ensures
        cmdbuf::contents(buffer, codes, at, done) matches Ok(all) ==> {
            &&& done.commands.len() <= i < all.commands.len() ==> stands_in(
                buffer,
                codes,
                at,
                all.commands[i],
            )
            &&& done.commands.len() <= i < all.commands.len() - 1 ==> all.commands[i].end + 8
                <= all.commands[i + 1].start
        },
    decreases buffer.len() - at,
{
    if cmdbuf::contents(buffer, codes, at, done) is Ok && at < buffer.len() {
        lemma_header(buffer, codes, at);
        let h = cmdbuf::header_at(buffer, codes, at);
        let end = at + 8 + h.size;
        if h.kind == Some(CommandKind::Attachments) {
            let more = cmdbuf::attachments_in(buffer, at + 8, (h.size as int / 24) as nat)->0;
            lemma_commands_stand(
                buffer,
                codes,
                end,
                Contents { attachments: done.attachments + more, ..done },
                i,
            );
        } else {
            let entry = Entry {
                compute: h.kind == Some(CommandKind::Compute),
                start: (at + 8) as usize,
                end: end as usize,
                barriers: (h.vdm_barrier, h.cdm_barrier),
            };
            let next = Contents { commands: done.commands.push(entry), ..done };
            lemma_commands_stand(buffer, codes, end, next, i);
            lemma_commands_stand(buffer, codes, end, next, i + 1);
            lemma_commands_kept(buffer, codes, end, next);
            assert(next.commands[done.commands.len() as int] == entry);
        }
    }
}

/// Whether the driver keeps an address for itself in every address space: aliases of work, the storage of the
/// opening client, the storage of computes, and what renders find at fixed places.
pub open spec fn is_kept(p: int) -> bool {
    ||| 0x71_0000_0000 <= p < 0x73_0000_0000
    ||| 0x70_0000_0000 <= p < 0x70_0040_0000
    ||| 0x70_0040_8000 <= p < 0x70_0041_8000
    ||| 0x70_0042_0000 <= p < 0x70_02cb_8000
    ||| 0x70_0310_8000 <= p < 0x70_0518_0000
    ||| 0x70_02cc_0000 <= p < 0x70_02cd_8000
    ||| 0x70_030e_0000 <= p < 0x70_0310_0000
    ||| 0x10_00c6_0000 <= p < 0x10_00c6_4000
    ||| 0x10_0008_0000 <= p < 0x10_0008_4000
    ||| 0x10_0025_8000 <= p < 0x10_0027_4000
    ||| 0x10_0024_0000 <= p < 0x10_0024_4000
    ||| in_render_blocks(p)
}

/// Whether an address lies in one of the eleven blocks of renders.
pub open spec fn in_render_blocks(p: int) -> bool {
    &&& 0x10_0008_8000 <= p < 0x10_0008_8000 + 11 * 0x2_8000
    &&& (p - 0x10_0008_8000) % 0x2_8000 < 0x2_0000
}

/// A range that holds an address that the driver keeps is reserved.
pub proof fn lemma_kept_is_reserved(start: int, end: int, p: int)
    requires
        start <= p < end,
        is_kept(p),
    ensures
        commands::is_reserved(start, end),
{
    if 0x71_0000_0000 <= p < 0x73_0000_0000 {
        assert(commands::ranges_meet(start, end, commands::device_range(0).0, commands::device_range(0).1));
    } else if 0x70_0000_0000 <= p < 0x70_0040_0000 {
        assert(commands::ranges_meet(start, end, commands::device_range(1).0, commands::device_range(1).1));
    } else if 0x70_0040_8000 <= p < 0x70_0041_8000 {
        assert(commands::ranges_meet(start, end, commands::device_range(2).0, commands::device_range(2).1));
    } else if 0x70_0042_0000 <= p < 0x70_02cb_8000 {
        assert(commands::ranges_meet(start, end, commands::device_range(3).0, commands::device_range(3).1));
    } else if 0x70_0310_8000 <= p < 0x70_0518_0000 {
        assert(commands::ranges_meet(start, end, commands::device_range(4).0, commands::device_range(4).1));
    } else if 0x70_02cc_0000 <= p < 0x70_02cd_8000 {
        assert(commands::ranges_meet(start, end, commands::compute_range(0).0, commands::compute_range(0).1));
    } else if 0x70_030e_0000 <= p < 0x70_0310_0000 {
        assert(commands::ranges_meet(start, end, commands::compute_range(1).0, commands::compute_range(1).1));
    } else if 0x10_00c6_0000 <= p < 0x10_00c6_4000 {
        assert(commands::ranges_meet(start, end, commands::compute_range(2).0, commands::compute_range(2).1));
    } else if 0x10_0008_0000 <= p < 0x10_0008_4000 {
        assert(commands::ranges_meet(start, end, commands::render_range(0).0, commands::render_range(0).1));
    } else if 0x10_0025_8000 <= p < 0x10_0027_4000 {
        assert(commands::ranges_meet(start, end, commands::render_range(1).0, commands::render_range(1).1));
    } else if 0x10_0024_0000 <= p < 0x10_0024_4000 {
        assert(commands::ranges_meet(start, end, commands::render_range(2).0, commands::render_range(2).1));
    } else {
        let i = 3 + (p - 0x10_0008_8000) / 0x2_8000;
        assert(commands::ranges_meet(start, end, commands::render_range(i).0, commands::render_range(i).1));
    }
}

/// A range is reserved only where it holds an address that the driver keeps.
pub proof fn lemma_reserved_is_kept(start: int, end: int)
    requires
        start < end,
        commands::is_reserved(start, end),
    ensures
        exists|p: int| start <= p < end && #[trigger] is_kept(p),
{
    if exists|i: int|
        0 <= i < 5 && #[trigger] commands::ranges_meet(
            start,
            end,
            commands::device_range(i).0,
            commands::device_range(i).1,
        ) {
        let i = choose|i: int|
            0 <= i < 5 && #[trigger] commands::ranges_meet(
                start,
                end,
                commands::device_range(i).0,
                commands::device_range(i).1,
            );
        let base = commands::device_range(i).0;
        let p = if start > base {
            start
        } else {
            base
        };
        assert(is_kept(p));
    } else if exists|i: int|
        0 <= i < 19 && #[trigger] commands::ranges_meet(
            start,
            end,
            commands::compute_range(i).0,
            commands::compute_range(i).1,
        ) {
        let i = choose|i: int|
            0 <= i < 19 && #[trigger] commands::ranges_meet(
                start,
                end,
                commands::compute_range(i).0,
                commands::compute_range(i).1,
            );
        let base = commands::compute_range(i).0;
        let p = if start > base {
            start
        } else {
            base
        };
        assert(is_kept(p));
    } else {
        let i = choose|i: int|
            0 <= i < 14 && #[trigger] commands::ranges_meet(
                start,
                end,
                commands::render_range(i).0,
                commands::render_range(i).1,
            );
        let base = commands::render_range(i).0;
        let p = if start > base {
            start
        } else {
            base
        };
        if i >= 3 {
            assert(base <= p < base + 0x2_0000);
            assert((p - 0x10_0008_8000) == (i - 3) * 0x2_8000 + (p - base));
            assert((p - 0x10_0008_8000) % 0x2_8000 == p - base);
            assert(in_render_blocks(p));
        }
        assert(is_kept(p));
    }
}

/// A range can be bound exactly when it and the place in the buffer are made of whole pages, it is not empty, it
/// leaves out the first page, it ends inside the address space, and it holds nothing that the kernel or the
/// driver keeps.
pub proof fn lemma_range_bound(address: u64, size: u64, offset: u64, kernel_start: u64, kernel_end: u64)
    ensures
        commands::range_ok(address, size, offset, kernel_start, kernel_end) <==> {
            &&& size != 0
            &&& address % 0x4000 == 0 && size % 0x4000 == 0 && offset % 0x4000 == 0
            &&& address != 0
            &&& address + size <= 0x3ff_ffff_8000
            &&& !(address < kernel_end && kernel_start < address + size)
            &&& forall|p: int| address <= p < address + size ==> !#[trigger] is_kept(p)
        },
{
    let end = address + size;
    if size > 0 {
        if commands::is_reserved(address as int, end) {
            lemma_reserved_is_kept(address as int, end);
        } else {
            assert forall|p: int| address <= p < address + size implies !#[trigger] is_kept(p) by {
                if is_kept(p) {
                    lemma_kept_is_reserved(address as int, end, p);
                }
            }
        }
    }
}

/// The flags of a request to bind are a bit for unbinding, which stands alone, and bits for reading, for writing
/// and for a single page; one that binds reads or writes.
pub proof fn lemma_bind_flags(
    flags: u32,
    handle: u32,
    offset: u64,
    size: u64,
    address: u64,
    kernel_start: u64,
    kernel_end: u64,
)
    requires
        commands::range_ok(address, size, offset, kernel_start, kernel_end),
    ensures
        ({
            let action = commands::bind_action_of(
                flags,
                handle,
                offset,
                size,
                address,
                kernel_start,
                kernel_end,
            );
            let read = flags / 2 % 2 == 1;
            let write = flags / 4 % 2 == 1;
            let single = flags / 8 % 2 == 1;
            &&& (action is Some && action->0 is Unbind) <==> flags == 1 && handle == 0 && offset == 0
            &&& (action is Some && action->0 is Bind) <==> flags < 16 && flags % 2 == 0 && (read || write)
            &&& action is Some && action->0 is Bind ==> action->0->read == read && action->0->write == write
                && action->0->single == single
        }),
{
    assert((flags & 2 != 0) == (flags / 2 % 2 == 1) && (flags & 4 != 0) == (flags / 4 % 2 == 1) && (flags & 8
        != 0) == (flags / 8 % 2 == 1) && (flags & !0xe != 0) == !(flags < 16 && flags % 2 == 0))
        by (bit_vector);
}

/// Nothing is bound or unbound at a range that cannot be bound.
pub proof fn lemma_bind_refused(
    flags: u32,
    handle: u32,
    offset: u64,
    size: u64,
    address: u64,
    kernel_start: u64,
    kernel_end: u64,
)
    requires
        !commands::range_ok(address, size, offset, kernel_start, kernel_end),
    ensures
        commands::bind_action_of(flags, handle, offset, size, address, kernel_start, kernel_end) is None,
{
}

/// A barrier waits for the completion that it counts to, from the last one before the submission on.
pub proof fn lemma_barrier_waits(history: Seq<Option<Stamp>>, barrier: u16)
    ensures
        barrier == 0xffff ==> commands::waited_for(history, barrier) is None,
        barrier != 0xffff ==> commands::waited_for(history, barrier) == history[barrier as int],
{
}

/// The messages on a channel are counted.
pub proof fn lemma_staged_count(publications: Seq<Publication>, channel: usize, n: int)
    requires
        0 <= n <= publications.len(),
    ensures
        flights::staged_on(publications, channel, n) == publications.take(n).filter(
            |p: Publication| p.channel == channel,
        ).len(),
    decreases n,
{
    let keep = |p: Publication| p.channel == channel;
    if n > 0 {
        lemma_staged_count(publications, channel, n - 1);
        let all = publications.take(n);
        assert(all.drop_last() =~= publications.take(n - 1));
        assert(all.last() == publications[n - 1]);
        reveal(Seq::filter);
    } else {
        assert(publications.take(0) =~= Seq::<Publication>::empty());
        reveal(Seq::filter);
    }
}

/// The head of a queue that has a message waiting goes along with it: no second message is made, and all else of
/// it and all other messages stay as they are.
pub proof fn lemma_message_taken_along(
    before: Seq<Publication>,
    after: Seq<Publication>,
    channel: usize,
    lane: Lane,
    event: u32,
    sequence: u64,
    tail: u32,
    out: Result<u32, Error>,
    i: int,
)
    requires
        0 <= i < before.len(),
        before[i].lane.queue == lane.queue,
        forall|j: int| 0 <= j < i ==> (#[trigger] before[j]).lane.queue != lane.queue,
        flights::staging(before, after, channel, lane, event, sequence, tail, out),
    ensures
        after.len() == before.len(),
        out == Ok::<u32, Error>(before[i].epoch),
        after[i].lane.head == lane.head,
        after[i].sequence == sequence,
        after[i].lane.queue == lane.queue,
        after[i].lane.pointers == before[i].lane.pointers,
        after[i].lane.ring == before[i].lane.ring,
        after[i].lane.new == before[i].lane.new,
        after[i].channel == before[i].channel,
        after[i].epoch == before[i].epoch,
        after[i].event == before[i].event,
        forall|j: int| 0 <= j < before.len() && j != i ==> #[trigger] after[j] == before[j],
{
    assert(flights::staged_at(before, lane.queue, i));
    let k = choose|k: int|
        {
            let p = before[k];
            &&& #[trigger] flights::staged_at(before, lane.queue, k)
            &&& out == Ok::<u32, Error>(p.epoch)
            &&& after == before.update(
                k,
                (Publication { lane: (Lane { head: lane.head, ..p.lane }), sequence, ..p }),
            )
        };
    assert(k == i);
}

/// A queue without a message gets one, behind those that are on its channel already, around a ring of 256; it
/// carries the queue, its event and the sequence number, and no other message changes.
pub proof fn lemma_message_added(
    before: Seq<Publication>,
    after: Seq<Publication>,
    channel: usize,
    lane: Lane,
    event: u32,
    sequence: u64,
    tail: u32,
    out: Result<u32, Error>,
)
    requires
        forall|j: int| 0 <= j < before.len() ==> (#[trigger] before[j]).lane.queue != lane.queue,
        flights::staging(before, after, channel, lane, event, sequence, tail, out),
        tail < 256,
    ensures
        after.len() == before.len() + 1,
        out is Ok,
        out->Ok_0 == (tail + before.filter(|p: Publication| p.channel == channel).len()) % 256,
        after.last().channel == channel,
        after.last().epoch == out->Ok_0,
        after.last().lane == lane,
        after.last().event == event,
        after.last().sequence == sequence,
        forall|j: int| 0 <= j < before.len() ==> #[trigger] after[j] == before[j],
{
    if flights::is_staged(before, lane.queue) {
        let i = choose|i: int| #[trigger] flights::staged_at(before, lane.queue, i);
        assert(before[i].lane.queue == lane.queue);
    }
    lemma_staged_count(before, channel, before.len() as int);
    assert(before.take(before.len() as int) =~= before);
}

/// A render stages its shading on the second channel of its priority and its tiling on the first, each queue
/// with the head that it will have.
pub proof fn lemma_render_staged(
    before: Seq<Publication>,
    middle: Seq<Publication>,
    after: Seq<Publication>,
    priority: u32,
    lanes: Seq<Lane>,
    events: (u32, u32),
    heads: Seq<u32>,
    tails: Seq<u32>,
    sequence: u64,
    first: Result<u32, Error>,
    out: Result<[u32; 2], Error>,
)
    requires
        priority <= 3,
        tails[0] < 256,
        tails[1] < 256,
        lanes[0].queue != lanes[1].queue,
        forall|j: int|
            0 <= j < before.len() ==> (#[trigger] before[j]).lane.queue != lanes[0].queue && before[j].lane.queue
                != lanes[1].queue,
        Session::staged_render(
            before,
            middle,
            after,
            priority,
            lanes,
            events,
            heads,
            tails,
            sequence,
            first,
            out,
        ),
    ensures
        out is Ok,
        after.len() == before.len() + 2,
        ({
            let shading = after[before.len() as int];
            let tiling = after[before.len() as int + 1];
            &&& shading.channel == 3 * priority + 1
            &&& shading.lane == (Lane { head: heads[1], ..lanes[1] })
            &&& shading.event == events.1
            &&& shading.sequence == sequence
            &&& shading.epoch == out->Ok_0@[1]
            &&& tiling.channel == 3 * priority
            &&& tiling.lane == (Lane { head: heads[0], ..lanes[0] })
            &&& tiling.event == events.0
            &&& tiling.sequence == sequence
            &&& tiling.epoch == out->Ok_0@[0]
        }),
{
    let fragment = Lane { head: heads[1], ..lanes[1] };
    let tiling = Lane { head: heads[0], ..lanes[0] };
    lemma_message_added(
        before,
        middle,
        (priority * 3 + 1) as usize,
        fragment,
        events.1,
        sequence,
        tails[1],
        first,
    );
    assert forall|j: int| 0 <= j < middle.len() implies (#[trigger] middle[j]).lane.queue != tiling.queue by {
        if j < before.len() {
            assert(middle[j] == before[j]);
        }
    }
    let second = match out {
        Ok(epochs) => Ok(epochs@[0]),
        Err(e) => Err(e),
    };
    lemma_message_added(
        middle,
        after,
        (priority * 3) as usize,
        tiling,
        events.0,
        sequence,
        tails[0],
        second,
    );
    assert(after[before.len() as int] == middle[before.len() as int]);
}

/// A stage of work on a new queue is admitted exactly when the cursors of its channel make sense, the channel
/// keeps more than half of its ring free behind both of them, and no work in flight waits for a place that the
/// message would take.
pub proof fn lemma_channel_admits(
    session: Session,
    queue: FirmwareQueues,
    stage: int,
    entries: u32,
    seen: Cursors,
)
    requires
        queue.priority <= 3,
        0 <= stage < 3,
        queue.lanes is None,
    ensures
        session.stage_refusal(queue, stage, entries, seen) is None <==> {
            let channel = (3 * queue.priority + stage) as usize;
            let count = flights::staged_on(session.publications@, channel, session.publications@.len() as int);
            let end = (seen.tail + count) % 256;
            let next = (seen.tail + count + 1) % 256;
            &&& seen.read < 256 && seen.done < 256 && seen.tail < 256
            &&& (end - seen.read) % 256 + 1 < 128
            &&& (end - seen.done) % 256 + 1 < 128
            &&& forall|i: int, k: int|
                0 <= i < session.flights@.len() && 0 <= k < 2 ==> !#[trigger] flights::waits_past(
                    session.flights@[i].channels@[k],
                    channel,
                    next,
                )
        },
{
}

/// A queue takes entries only as long as less than half of its ring is in use behind both cursors.
pub proof fn lemma_queue_admits(
    session: Session,
    queue: FirmwareQueues,
    stage: int,
    entries: u32,
    seen: Cursors,
)
    requires
        0 <= stage < 3,
        queue.lanes is Some,
        session.stage_refusal(queue, stage, entries, seen) is None,
    ensures
        ({
            let head = queue.lanes->0@[stage].head;
            &&& head < 0x500 && seen.lane_read < 0x500 && seen.lane_done < 0x500
            &&& (head - seen.lane_read) % 0x500 + entries < 0x280
            &&& (head - seen.lane_done) % 0x500 + entries < 0x280
            &&& seen.read < 256 && seen.done < 256 && seen.tail < 256
        }),
{
}

/// Only a lack of room in the queue is told as that.
pub proof fn lemma_queue_refuses(
    session: Session,
    queue: FirmwareQueues,
    stage: int,
    entries: u32,
    seen: Cursors,
)
    requires
        0 <= stage < 3,
        session.stage_refusal(queue, stage, entries, seen) == Some(Refusal::Workqueue),
    ensures
        queue.lanes is Some,
        ({
            let head = queue.lanes->0@[stage].head;
            ||| (head - seen.lane_read) % 0x500 + entries >= 0x280
            ||| (head - seen.lane_done) % 0x500 + entries >= 0x280
        }),
{
}

/// Whether work waits for a place of a channel: it has one there, and the channel's end has not passed it by
/// less than half the ring.
pub proof fn lemma_waits_past(place: Option<(usize, u32)>, channel: usize, next: int)
    requires
        0 <= next < 256,
    ensures
        flights::waits_past(place, channel, next) <==> place is Some && (place->0).0 == channel && ((place->0).1
            >= 256 || (next - (place->0).1) % 256 >= 128),
{
}

/// Work is admitted exactly when the device has not failed, there is a context for its root, and each of its
/// stages is admitted: both for a render, and the third for a compute.
pub proof fn lemma_admitted(
    session: Session,
    queue: FirmwareQueues,
    render: bool,
    root: u64,
    entries: Seq<u32>,
    seen: Seq<Cursors>,
)
    ensures
        ({
            let refused = session.refusal(queue, render, root, entries, seen);
            let ok = |stage: int| session.stage_refusal(queue, stage, entries[stage], seen[stage]) is None;
            &&& refused is None <==> {
                &&& !session.render_failed
                &&& session.contexts.has_context(root)
                &&& if render {
                    ok(0) && ok(1)
                } else {
                    ok(2)
                }
            }
            &&& session.render_failed ==> refused == Some(Refusal::Failed)
            &&& !session.render_failed && !session.contexts.has_context(root) ==> refused == Some(
                Refusal::Contexts,
            )
        }),
{
}

/// The room that is asked for is the room that is used: a compute takes a slot for each wait and one for itself,
/// and the first stage of a render one more before its buffer is set up.
pub proof fn lemma_room_is_used(session: Session, root: u64, dependencies: Seq<Option<Stamp>>)
    requires
        dependencies.len() == 2,
    ensures
        ({
            let waits = submit::waits(dependencies, false, 0).len();
            let compute = Session::compute_entries(dependencies);
            let render = session.render_entries(root, dependencies);
            let ready = exists|i: int|
                0 <= i < session.tvb_pools@.len() && (#[trigger] session.tvb_pools@[i]).root == root
                    && session.tvb_pools@[i].initialized;
            &&& compute.len() == 3
            &&& compute[0] == 0 && compute[1] == 0
            &&& compute[2] == 1 + waits
            &&& render.len() == 3
            &&& render[0] == waits + if ready {
                1int
            } else {
                2
            }
            &&& render[1] == 2
            &&& render[2] == 0
        }),
{
    assert(dependencies[0] is Some && dependencies[1] is Some ==> submit::present(
        dependencies[0],
        dependencies[1],
    ).len() == 2);
}

/// The registers of a channel: two cursors beside each other, 0x40 bytes for a stage and 0x10 for a priority, and
/// the end.
pub proof fn lemma_channel_registers(channel: int)
    requires
        0 <= channel < 12,
    ensures
        ({
            let r = admission::registers_of(channel);
            &&& r.len() == 3
            &&& r[0] == 0xd6_4000 + 0x40 * (channel % 3) + 0x10 * (channel / 3)
            &&& r[1] == r[0] + 8
            &&& r[2] == 0xd6_0000 + 0x20 * (channel % 3) + 8 * (channel / 3)
        }),
{
    let states = crate::fw::state_offsets();
    assert(states.len() == 12);
    assert(states[channel].0 == 0x40 * (channel % 3) + 0x10 * (channel / 3));
    assert(states[channel].1 == 0x20 * (channel % 3) + 8 * (channel / 3));
}

/// Commands are taken exactly when each of them is.
pub proof fn lemma_parameters_taken(vm: Vm, flags: RenderFlags, commands: Seq<ClientCommand>, n: int)
    requires
        0 <= n <= commands.len(),
    ensures
        submission::parameters_refusal(vm, flags, commands, n) is None <==> forall|k: int|
            0 <= k < n ==> submission::parameters_of(vm, flags, #[trigger] commands[k]) is Ok,
    decreases n,
{
    if n > 0 {
        lemma_parameters_taken(vm, flags, commands, n - 1);
    }
}

/// The first command that is refused says why.
pub proof fn lemma_first_refusal(vm: Vm, flags: RenderFlags, commands: Seq<ClientCommand>, n: int, k: int)
    requires
        0 <= k < n <= commands.len(),
        submission::parameters_of(vm, flags, commands[k]) is Err,
        forall|j: int| 0 <= j < k ==> submission::parameters_of(vm, flags, #[trigger] commands[j]) is Ok,
    ensures
        submission::parameters_refusal(vm, flags, commands, n) == Some(
            submission::parameters_of(vm, flags, commands[k])->Err_0,
        ),
    decreases n,
{
    if k < n - 1 {
        lemma_first_refusal(vm, flags, commands, n - 1, k);
    } else {
        lemma_parameters_taken(vm, flags, commands, n - 1);
    }
}

/// A command comes to parameters of its own kind: a render to those of a render, a compute to those of a compute.
pub proof fn lemma_kind_kept(vm: Vm, flags: RenderFlags, c: ClientCommand)
    ensures
        submission::parameters_of(vm, flags, c) matches Ok(p) ==> (c is Render <==> p is Render) && (c is Compute
            <==> p is Compute),
{
}

/// A timestamp goes into the buffer that it names, at its offset, where a whole slot is inside; without a buffer
/// it goes nowhere.
pub proof fn lemma_timestamp_place(state: FileState, slot: TimestampRef, i: int)
    requires
        state.wf(),
        0 <= i < state.timestamps@.len(),
        state.timestamps@[i].id == slot.handle,
        slot.handle != 0,
        forall|j: int|
            0 <= j < state.timestamps@.len() && j != i ==> (#[trigger] state.timestamps@[j]).id != slot.handle,
        state.timestamps@[i].address + state.timestamps@[i].size <= u64::MAX,
    ensures
        state.stamp_of(slot) is Ok <==> slot.offset % 8 == 0 && slot.offset + 8 <= state.timestamps@[i].size,
        state.stamp_of(slot) is Ok ==> state.stamp_of(slot)->Ok_0 == state.timestamps@[i].address + slot.offset,
        state.stamp_of(slot) is Err ==> state.stamp_of(slot)->Err_0 == Error::EINVAL,
{
    let k = choose|k: int|
        0 <= k < state.timestamps@.len() && (#[trigger] state.timestamps@[k]).id == slot.handle;
    assert(k == i);
}

/// A timestamp that names no buffer, or one that there is not.
pub proof fn lemma_timestamp_none(state: FileState, slot: TimestampRef)
    ensures
        slot.handle == 0 && slot.offset == 0 ==> state.stamp_of(slot) == Ok::<u64, Error>(0),
        slot.handle == 0 && slot.offset != 0 ==> state.stamp_of(slot) == Err::<u64, Error>(Error::EINVAL),
        slot.handle != 0 && (forall|j: int|
            0 <= j < state.timestamps@.len() ==> (#[trigger] state.timestamps@[j]).id != slot.handle)
            ==> state.stamp_of(slot) == Err::<u64, Error>(Error::ENOENT),
{
}

/// The timestamps of commands are taken exactly when each of their slots is.
pub proof fn lemma_slots_taken(state: FileState, slots: Seq<TimestampRef>, n: int)
    requires
        0 <= n <= slots.len(),
    ensures
        state.slots_refusal(slots, n) is None <==> forall|k: int|
            0 <= k < n ==> state.stamp_of(#[trigger] slots[k]) is Ok,
    decreases n,
{
    if n > 0 {
        lemma_slots_taken(state, slots, n - 1);
    }
}

/// Commands whose timestamps are taken have all of their slots taken.
pub proof fn lemma_stamps_taken(state: FileState, commands: Seq<ClientCommand>, n: int, k: int, j: int)
    requires
        0 <= k < n <= commands.len(),
        state.stamps_refusal(commands, n) is None,
        0 <= j < submission::slots_of(commands[k]).len(),
    ensures
        state.stamp_of(submission::slots_of(commands[k])[j]) is Ok,
    decreases n,
{
    if k < n - 1 {
        lemma_stamps_taken(state, commands, n - 1, k, j);
    } else {
        let slots = submission::slots_of(commands[k]);
        lemma_slots_taken(state, slots, slots.len() as int);
    }
}

/// A submission is taken exactly when its timestamps are, its address space is not broken, its attachments can be
/// written, each command is taken, and the device has not failed where a set-up is due.
pub proof fn lemma_submission_taken(
    state: FileState,
    i: int,
    commands: Seq<ClientCommand>,
    attachments: Seq<(u64, u64)>,
    flags: RenderFlags,
    render_failed: bool,
)
    ensures
        state.submission_refusal(i, commands, attachments, flags, render_failed) is None <==> {
            let vm = state.vms@[i];
            &&& state.stamps_refusal(commands, commands.len() as int) is None
            &&& !vm.render_broken
            &&& forall|k: int|
                0 <= k < attachments.len() ==> mapping::range_covered(
                    vm.mappings@,
                    (#[trigger] attachments[k]).0 as int,
                    attachments[k].1 as int,
                    4,
                )
            &&& forall|k: int|
                0 <= k < commands.len() ==> submission::parameters_of(vm, flags, #[trigger] commands[k]) is Ok
            &&& render_failed ==> forall|k: int|
                0 <= k < commands.len() ==> if (#[trigger] commands[k]) is Render {
                    vm.render_ready
                } else {
                    vm.compute_ready
                }
        },
{
    let vm = state.vms@[i];
    lemma_parameters_taken(vm, flags, commands, commands.len() as int);
    if render_failed {
        assert(forall|k: int|
            0 <= k < commands.len() ==> ((#[trigger] commands[k]) is Render <==> submission::is_render(
                commands[k],
            )));
    }
}

/// An address is mapped with some permissions exactly when a mapping around it grants them all.
pub proof fn lemma_covered(mappings: Seq<mapping::Mapping>, address: int, permissions: u32)
    ensures
        mapping::covered(mappings, address, permissions) <==> exists|i: int|
            0 <= i < mappings.len() && (#[trigger] mappings[i]).start <= address < mappings[i].end
                && mappings[i].permissions & permissions == permissions,
{
    if mapping::covered(mappings, address, permissions) {
        let i = choose|i: int|
            0 <= i < mappings.len() && (#[trigger] mappings[i]).allows(address, permissions);
        assert(mappings[i].start <= address < mappings[i].end);
    }
    if exists|i: int|
        0 <= i < mappings.len() && (#[trigger] mappings[i]).start <= address < mappings[i].end
            && mappings[i].permissions & permissions == permissions {
        let i = choose|i: int|
            0 <= i < mappings.len() && (#[trigger] mappings[i]).start <= address < mappings[i].end
                && mappings[i].permissions & permissions == permissions;
        assert(mappings[i].allows(address, permissions));
    }
}

/// A support object is a page that starts with a support block and is empty behind it; the block names the shared
/// state in the same page, and the number of the object counts from three.
pub proof fn lemma_support_page(pool: OperandPool, index: u32, i: int)
    requires
        index < 0x1000,
        0 <= i < 0x4000,
    ensures
        ({
            let page = launch::support_page(pool, index);
            let block = bytes::image(
                0x100,
                pool.support_fields(
                    (index + 3) as u64,
                    (0xffff_fc20_c300_1000 + 0x4000 * index) as u64,
                ),
            );
            &&& page.len() == 0x4000
            &&& i < 0x100 ==> page[i] == block[i]
            &&& i >= 0x100 ==> page[i] == 0
        }),
{
}

/// The timestamps of a command go where its slots say, in order, and a compute has only two.
pub proof fn lemma_stamps_go(state: FileState, c: ClientCommand, stamps: Seq<u64>, i: int)
    requires
        state.stamps_ok(c, stamps),
        0 <= i < 4,
    ensures
        stamps.len() == 4,
        c matches ClientCommand::Render(_, slots) ==> stamps[i] == state.stamp_of(slots@[i])->Ok_0,
        c matches ClientCommand::Compute(_, slots) ==> stamps[i] == if i < 2 {
            state.stamp_of(slots@[i])->Ok_0
        } else {
            0
        },
{
}

} // verus!
