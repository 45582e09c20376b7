//! Bounded compute stream walker and resource-table selection.
//!
//! Reads happen after scheduler dependencies complete, because earlier GPU commands can produce a later
//! command stream or its resource table.
use crate::bytes;
use crate::bytes::get32;
use crate::error::Error;
use vstd::prelude::*;

verus! {

/// A question to the memory of a client, with its answer.
pub ghost enum Call {
    /// Bytes are read at an address.
    Read { address: u64, count: int, bytes: Result<Seq<u8>, Error> },
    /// A range is checked for permissions.
    Cover { address: u64, size: u64, permissions: u32, fault: Option<Error> },
}

/// The memory of the client that a stream lies in. Every call counts as an event, so that what is asked of
/// the memory, and in which order, is part of what a caller promises.
pub trait Memory {
    /// The calls so far.
    closed spec fn calls(&self) -> Seq<Call> {
        arbitrary()
    }

    /// Whether the memory may answer a call in this way. A client may write to a stream while it is read:
    /// more than one answer may be possible.
    closed spec fn admits(&self, call: Call) -> bool {
        arbitrary()
    }

    /// Reads bytes at an address.
    fn read(&mut self, address: u64, out: &mut [u8]) -> (r: Result<(), Error>)
        ensures
            final(out)@.len() == old(out)@.len(),
            ({
                let call = Call::Read {
                    address,
                    count: old(out)@.len() as int,
                    bytes: match r {
                        Ok(_) => Ok(final(out)@),
                        Err(e) => Err(e),
                    },
                };
                &&& old(self).admits(call)
                &&& final(self).calls() == old(self).calls().push(call)
            }),
            forall|call: Call| #[trigger] final(self).admits(call) == old(self).admits(call),
    ;

    /// Checks that a range is mapped with the given permissions.
    fn cover(&mut self, address: u64, size: u64, permissions: u32) -> (r: Result<(), Error>)
        ensures
            ({
                let fault = match r {
                    Ok(_) => None,
                    Err(e) => Some(e),
                };
                let call = Call::Cover { address, size, permissions, fault };
                &&& old(self).admits(call)
                &&& final(self).calls() == old(self).calls().push(call)
            }),
            forall|call: Call| #[trigger] final(self).admits(call) == old(self).admits(call),
    ;
}

/// Number of blocks that a stream may have. It also bounds cycles.
pub const BUDGET: u64 = 4096;

/// Number of calls that may be nested.
pub const DEPTH: usize = 32;

/// Where a walk is: the next block, the blocks to return to, and the resource table selected so far.
pub struct Walk {
    pub cursor: u64,
    pub stack: Vec<u64>,
    pub selected: Option<u64>,
}

/// Where a walk is, as values.
pub struct WalkView {
    pub cursor: u64,
    pub stack: Seq<u64>,
    pub selected: Option<u64>,
}

impl View for Walk {
    type V = WalkView;

    open spec fn view(&self) -> WalkView {
        WalkView { cursor: self.cursor, stack: self.stack@, selected: self.selected }
    }
}

/// Size in bytes of a block, by its header; none for a kind or mode that does not exist.
#[verifier::opaque]
pub open spec fn size_of(header: int) -> Option<int> {
    let kind = header / 0x2000_0000;
    let mode = (header / 0x800_0000) % 4;
    if kind == 0 && mode == 0 {
        Some(0x28)
    } else if kind == 0 && mode == 1 {
        Some(0x24)
    } else if kind == 0 && mode == 2 {
        Some(0x18)
    } else if kind == 1 {
        Some(8)
    } else if 2 <= kind <= 4 {
        Some(4)
    } else {
        None
    }
}

/// The pipeline that a launch block names.
pub open spec fn pipeline_of(body: Seq<u8>) -> int {
    (bytes::u32_in(body, 12) % 0x100) * 0x100_0000_0000 + bytes::u32_in(body, 8) * 0x40
}

/// The resource table behind a pipeline.
pub open spec fn table_of(pipeline: int) -> int {
    pipeline / 0x8000 * 0x8000 + 0x50000
}

/// Whether an address lies in the shader aperture.
pub open spec fn in_aperture(address: int) -> bool {
    0x100_0000_0000 <= address < 0x101_0000_0000
}

/// What a block makes of a walk.
pub ghost enum Step {
    /// The stream is refused.
    Fail { error: Error },
    /// The walk goes on, once a range has been found readable.
    Go { walk: WalkView, cover: Option<(int, int)> },
    /// The stream ends, once its resource table has been found readable.
    Done { resource: u64 },
}

/// What a block of a stream that ends at `end` makes of a walk.
#[verifier::opaque]
pub open spec fn step_of(w: WalkView, header: int, body: Seq<u8>, end: int) -> Step {
    let kind = header / 0x2000_0000;
    let mode = (header / 0x800_0000) % 4;
    let next = w.cursor + size_of(header)->0;
    if kind == 0 {
        let resource = table_of(pipeline_of(body));
        if (bytes::u32_in(body, 12) / 0x4000_0000) % 2 == 0 {
            Step::Fail { error: Error::EINVAL }
        } else if !in_aperture(pipeline_of(body)) || !in_aperture(resource) {
            Step::Fail { error: Error::EINVAL }
        } else if w.selected is Some && w.selected->0 != resource {
            Step::Fail { error: Error::ENOTSUPP }
        } else {
            Step::Go {
                walk: WalkView {
                    cursor: next as u64,
                    stack: w.stack,
                    selected: Some(resource as u64),
                },
                cover: if mode == 0 {
                    None
                } else {
                    Some(
                        (
                            bytes::u32_in(body, 0x10) * 0x1_0000_0000 + bytes::u32_in(body, 0x14),
                            if mode == 2 {
                                24int
                            } else {
                                12
                            },
                        ),
                    )
                },
            }
        }
    } else if kind == 1 {
        let call = (header / 0x1000_0000) % 2 == 1;
        let target = (header % 0x100) * 0x1_0000_0000 + bytes::u32_in(body, 4);
        if call && w.stack.len() == DEPTH {
            Step::Fail { error: Error::EINVAL }
        } else {
            Step::Go {
                walk: WalkView {
                    cursor: target as u64,
                    stack: if call {
                        w.stack.push(next as u64)
                    } else {
                        w.stack
                    },
                    selected: w.selected,
                },
                cover: None,
            }
        }
    } else if kind == 2 {
        if w.stack.len() != 0 || next != end {
            Step::Fail { error: Error::EINVAL }
        } else if w.selected is None {
            Step::Fail { error: Error::ENOTSUPP }
        } else {
            Step::Done { resource: w.selected->0 }
        }
    } else if kind == 3 {
        Step::Go {
            walk: WalkView { cursor: next as u64, stack: w.stack, selected: w.selected },
            cover: None,
        }
    } else {
        if w.stack.len() == 0 {
            Step::Fail { error: Error::EINVAL }
        } else {
            Step::Go {
                walk: WalkView {
                    cursor: w.stack.last(),
                    stack: w.stack.drop_last(),
                    selected: w.selected,
                },
                cover: None,
            }
        }
    }
}

/// What the memory answered for one block.
pub ghost struct Reply {
    pub head: Result<Seq<u8>, Error>,
    pub rest: Result<Seq<u8>, Error>,
    pub cover: Option<Error>,
}

/// What one block makes of a walk, given what the memory answered.
pub ghost enum Turn {
    /// The walk is over.
    Over { answer: Result<u64, Error> },
    /// The walk goes on.
    On { walk: WalkView },
}

/// What the next block makes of a walk when the memory gives a reply.
#[verifier::opaque]
pub open spec fn turn_of(w: WalkView, reply: Reply, base: int, end: int) -> Turn {
    if w.cursor < base || w.cursor + 4 > end || w.cursor % 4 != 0 {
        Turn::Over { answer: Err(Error::EINVAL) }
    } else {
        match reply.head {
            Err(e) => Turn::Over { answer: Err(e) },
            Ok(head) => {
                let header = bytes::u32_in(head, 0);
                match size_of(header) {
                    None => Turn::Over { answer: Err(Error::EINVAL) },
                    Some(size) => if w.cursor + size > end {
                        Turn::Over { answer: Err(Error::EINVAL) }
                    } else {
                        match reply.rest {
                            Err(e) => Turn::Over { answer: Err(e) },
                            Ok(rest) => match step_of(w, header, head + rest, end) {
                                Step::Fail { error } => Turn::Over { answer: Err(error) },
                                Step::Go { walk, cover } => if cover is Some && reply.cover is Some {
                                    Turn::Over { answer: Err(reply.cover->0) }
                                } else {
                                    Turn::On { walk }
                                },
                                Step::Done { resource } => match reply.cover {
                                    Some(e) => Turn::Over { answer: Err(e) },
                                    None => Turn::Over { answer: Ok(resource) },
                                },
                            },
                        }
                    },
                }
            },
        }
    }
}

/// What a walk answers when the memory gives these replies, one for each block; none while replies are
/// outstanding.
pub open spec fn run(
    w: WalkView,
    replies: Seq<Reply>,
    budget: nat,
    base: int,
    end: int,
) -> Option<Result<u64, Error>>
    decreases budget,
{
    if budget == 0 {
        Some(Err(Error::EINVAL))
    } else if replies.len() == 0 {
        None
    } else {
        match turn_of(w, replies[0], base, end) {
            Turn::Over { answer } => Some(answer),
            Turn::On { walk } => run(walk, replies.skip(1), (budget - 1) as nat, base, end),
        }
    }
}

/// The whole answer for a stream: aligned and in order, readable as a whole, then walked.
pub open spec fn answer(
    base: u64,
    end: u64,
    readable: Option<Error>,
    replies: Seq<Reply>,
) -> Option<Result<u64, Error>> {
    if base >= end || base % 4 != 0 || end % 4 != 0 {
        Some(Err(Error::EINVAL))
    } else if readable is Some {
        Some(Err(readable->0))
    } else {
        run(
            WalkView { cursor: base, stack: Seq::empty(), selected: None },
            replies,
            4096,
            base as int,
            end as int,
        )
    }
}

/// What is asked of the memory for the next block of a walk, with a reply: its header, the rest of it, and
/// the range that it names. Nothing is asked outside the stream, nor behind a refusal.
#[verifier::opaque]
pub open spec fn block_calls(w: WalkView, reply: Reply, base: int, end: int) -> Seq<Call> {
    let head = Call::Read { address: w.cursor, count: 4, bytes: reply.head };
    if w.cursor < base || w.cursor + 4 > end || w.cursor % 4 != 0 {
        Seq::empty()
    } else if reply.head is Err {
        seq![head]
    } else {
        let header = bytes::u32_in(reply.head->Ok_0, 0);
        let size = size_of(header);
        if size is None || w.cursor + size->0 > end {
            seq![head]
        } else {
            let rest = Call::Read {
                address: (w.cursor + 4) as u64,
                count: size->0 - 4,
                bytes: reply.rest,
            };
            if reply.rest is Err {
                seq![head, rest]
            } else {
                match step_of(w, header, reply.head->Ok_0 + reply.rest->Ok_0, end) {
                    Step::Go { cover: Some((address, size)), .. } => seq![
                        head,
                        rest,
                        Call::Cover {
                            address: address as u64,
                            size: size as u64,
                            permissions: 2,
                            fault: reply.cover,
                        },
                    ],
                    Step::Done { resource } => seq![
                        head,
                        rest,
                        Call::Cover {
                            address: resource,
                            size: 0x4000,
                            permissions: 2,
                            fault: reply.cover,
                        },
                    ],
                    _ => seq![head, rest],
                }
            }
        }
    }
}

/// What a walk asks of the memory when it gives these replies, one for each block.
pub open spec fn walk_calls(
    w: WalkView,
    replies: Seq<Reply>,
    budget: nat,
    base: int,
    end: int,
) -> Seq<Call>
    decreases budget,
{
    if budget == 0 || replies.len() == 0 {
        Seq::empty()
    } else {
        block_calls(w, replies[0], base, end) + match turn_of(w, replies[0], base, end) {
            Turn::Over { .. } => Seq::empty(),
            Turn::On { walk } => walk_calls(walk, replies.skip(1), (budget - 1) as nat, base, end),
        }
    }
}

/// All that is asked of the memory for a stream: whether it is readable as a whole, then what its walk asks.
pub open spec fn stream_calls(
    base: u64,
    end: u64,
    readable: Option<Error>,
    replies: Seq<Reply>,
) -> Seq<Call> {
    let whole = Call::Cover {
        address: base,
        size: (end - base) as u64,
        permissions: 2,
        fault: readable,
    };
    if base >= end || base % 4 != 0 || end % 4 != 0 {
        Seq::empty()
    } else if readable is Some {
        seq![whole]
    } else {
        seq![whole] + walk_calls(
            WalkView { cursor: base, stack: Seq::empty(), selected: None },
            replies,
            4096,
            base as int,
            end as int,
        )
    }
}

/// Whether a memory was asked just these calls, and may answer them as it did.
pub open spec fn asked<M: Memory>(before: M, after: M, calls: Seq<Call>) -> bool {
    &&& after.calls() == before.calls() + calls
    &&& forall|i: int| 0 <= i < calls.len() ==> before.admits(#[trigger] calls[i])
    &&& forall|call: Call| #[trigger] after.admits(call) == before.admits(call)
}

/// Calls that follow each other are asked together.
proof fn lemma_asked_on<M: Memory>(m0: M, m1: M, m: M, first: Seq<Call>, second: Seq<Call>)
    requires
        asked(m0, m1, first),
        asked(m1, m, second),
    ensures
        asked(m0, m, first + second),
{
    let all = first + second;
    assert(m.calls() =~= m0.calls() + all);
    assert forall|i: int| 0 <= i < all.len() implies m0.admits(#[trigger] all[i]) by {
        if i < first.len() {
            assert(all[i] == first[i]);
        } else {
            assert(all[i] == second[i - first.len()]);
            assert(m1.admits(all[i]) == m0.admits(all[i]));
        }
    }
    assert forall|call: Call| #[trigger] m.admits(call) == m0.admits(call) by {
        assert(m1.admits(call) == m0.admits(call));
    }
}

/// What to do after a block has been decoded.
pub enum Action {
    /// Check that a range is readable, then go on.
    Cover { address: u64, size: u64 },
    /// Go on.
    Next,
    /// Check that the resource table is readable, then answer it.
    Finish { resource: u64 },
}

/// Size in bytes of a block, by its header.
pub fn block_size(header: u32) -> (out: Result<u64, Error>)
    ensures
        match size_of(header as int) {
            Some(size) => out == Ok::<u64, Error>(size as u64) && (size == 0x28 || size == 0x24 || size
                == 0x18 || size == 8 || size == 4),
            None => out == Err::<u64, Error>(Error::EINVAL),
        },
{
    proof {
        reveal(size_of);
    }
    let kind: u32 = header / 0x2000_0000;
    let mode: u32 = (header / 0x800_0000) % 4;
    match kind {
        0 => match mode {
            0 => Ok(0x28),
            1 => Ok(0x24),
            2 => Ok(0x18),
            _ => Err(Error::EINVAL),
        },
        1 => Ok(8),
        2 | 3 | 4 => Ok(4),
        _ => Err(Error::EINVAL),
    }
}

impl Walk {
    /// Whether what is selected can be a resource table.
    pub open spec fn tabled(self) -> bool {
        self.selected is Some ==> in_aperture(self.selected->0 as int) && self.selected->0 % 0x8000 == 0
    }

    /// Takes one block, whose header has been decoded and whose end is known to be in bounds.
    pub fn step(&mut self, header: u32, body: &[u8], end: u64) -> (out: Result<Action, Error>)
        requires
            size_of(header as int) is Some,
            body@.len() >= size_of(header as int)->0,
            old(self).cursor + size_of(header as int)->0 <= end,
        ensures
            match step_of(old(self)@, header as int, body@, end as int) {
                Step::Fail { error } => out == Err::<Action, Error>(error),
                Step::Go { walk, cover } => {
                    &&& final(self)@ == walk
                    &&& match cover {
                        None => out == Ok::<Action, Error>(Action::Next),
                        Some((address, size)) => out == Ok::<Action, Error>(
                            Action::Cover { address: address as u64, size: size as u64 },
                        ),
                    }
                },
                Step::Done { resource } => out == Ok::<Action, Error>(Action::Finish { resource })
                    && old(self).selected == Some(resource) && *final(self) == *old(self),
            },
            old(self).tabled() ==> final(self).tabled(),
    {
        proof {
            reveal(size_of);
            reveal(step_of);
        }
        let kind: u32 = header / 0x2000_0000;
        let mode: u32 = (header / 0x800_0000) % 4;
        if kind == 0 {
            let size: u64 = if mode == 0 {
                0x28
            } else if mode == 1 {
                0x24
            } else {
                0x18
            };
            let flags: u32 = get32(body, 12);
            if (flags / 0x4000_0000) % 2 == 0 {
                return Err(Error::EINVAL);
            }
            let pipeline: u64 = (flags % 0x100) as u64 * 0x100_0000_0000 + get32(body, 8) as u64
                * 0x40;
            let resource: u64 = pipeline / 0x8000 * 0x8000 + 0x50000;
            if pipeline < 0x100_0000_0000 || pipeline >= 0x101_0000_0000 || resource
                < 0x100_0000_0000 || resource >= 0x101_0000_0000 {
                return Err(Error::EINVAL);
            }
            match self.selected {
                Some(selected) => {
                    if selected != resource {
                        return Err(Error::ENOTSUPP);
                    }
                },
                None => {},
            }
            self.selected = Some(resource);
            self.cursor = self.cursor + size;
            if mode == 0 {
                return Ok(Action::Next);
            }
            let address: u64 = get32(body, 0x10) as u64 * 0x1_0000_0000 + get32(body, 0x14) as u64;
            Ok(
                Action::Cover {
                    address,
                    size: if mode == 2 {
                        24
                    } else {
                        12
                    },
                },
            )
        } else if kind == 1 {
            let next: u64 = self.cursor + 8;
            if (header / 0x1000_0000) % 2 == 1 {
                if self.stack.len() == DEPTH {
                    return Err(Error::EINVAL);
                }
                self.stack.push(next);
            }
            self.cursor = (header % 0x100) as u64 * 0x1_0000_0000 + get32(body, 4) as u64;
            Ok(Action::Next)
        } else if kind == 2 {
            if self.stack.len() != 0 || self.cursor + 4 != end {
                return Err(Error::EINVAL);
            }
            match self.selected {
                None => Err(Error::ENOTSUPP),
                Some(resource) => Ok(Action::Finish { resource }),
            }
        } else if kind == 3 {
            self.cursor = self.cursor + 4;
            Ok(Action::Next)
        } else {
            match self.stack.pop() {
                None => Err(Error::EINVAL),
                Some(cursor) => {
                    self.cursor = cursor;
                    Ok(Action::Next)
                },
            }
        }
    }
}

/// What was told by a read.
spec fn told_by(out: Result<Vec<u8>, Error>) -> Result<Seq<u8>, Error> {
    match out {
        Ok(bytes) => Ok(bytes@),
        Err(e) => Err(e),
    }
}

/// Reads some bytes.
fn read_bytes<M: Memory>(memory: &mut M, address: u64, count: usize) -> (out: Result<Vec<u8>, Error>)
    ensures
        asked(
            *old(memory),
            *final(memory),
            seq![Call::Read { address, count: count as int, bytes: told_by(out) }],
        ),
        out is Ok ==> (out->Ok_0)@.len() == count,
{
    let ghost m0 = *memory;
    let mut bytes: Vec<u8> = vec![0u8; count];
    let out: Result<Vec<u8>, Error> = match memory.read(address, bytes.as_mut_slice()) {
        Err(e) => Err(e),
        Ok(_) => Ok(bytes),
    };
    proof {
        let call = Call::Read { address, count: count as int, bytes: told_by(out) };
        assert(memory.calls() =~= m0.calls() + seq![call]);
    }
    out
}

/// Checks that a range is readable.
fn readable<M: Memory>(memory: &mut M, address: u64, size: u64) -> (out: Option<Error>)
    ensures
        asked(
            *old(memory),
            *final(memory),
            seq![Call::Cover { address, size, permissions: 2, fault: out }],
        ),
{
    let ghost m0 = *memory;
    let out: Option<Error> = match memory.cover(address, size, 2) {
        Ok(_) => None,
        Err(e) => Some(e),
    };
    proof {
        let call = Call::Cover { address, size, permissions: 2, fault: out };
        assert(memory.calls() =~= m0.calls() + seq![call]);
    }
    out
}

/// Whether an outcome is what the next block makes of a walk when the memory gives a reply.
spec fn turned(
    w: WalkView,
    reply: Reply,
    out: Result<Option<u64>, Error>,
    after: WalkView,
    base: int,
    end: int,
) -> bool {
    turn_of(w, reply, base, end) == match out {
        Err(e) => Turn::Over { answer: Err(e) },
        Ok(Some(resource)) => Turn::Over { answer: Ok(resource) },
        Ok(None) => Turn::On { walk: after },
    }
}

/// Takes the next block of a stream. Answers the resource table where the stream ends.
fn take_block<M: Memory>(memory: &mut M, walk: &mut Walk, base: u64, end: u64) -> (out: Result<
    Option<u64>,
    Error,
>)
    requires
        old(walk).tabled(),
    ensures
        exists|reply: Reply|
            {
                &&& #[trigger] turned(
                    old(walk)@,
                    reply,
                    out,
                    final(walk)@,
                    base as int,
                    end as int,
                )
                &&& asked(
                    *old(memory),
                    *final(memory),
                    block_calls(old(walk)@, reply, base as int, end as int),
                )
            },
        final(walk).tabled(),
        out matches Ok(Some(resource)) ==> in_aperture(resource as int) && resource % 0x8000 == 0,
{
    proof {
        reveal(turn_of);
        reveal(block_calls);
    }
    let ghost w0 = walk@;
    let ghost m0 = *memory;
    let ghost idle = Reply { head: Err(Error::EINVAL), rest: Err(Error::EINVAL), cover: None };
    if walk.cursor < base || end < 4 || walk.cursor > end - 4 || walk.cursor % 4 != 0 {
        assert(asked(m0, *memory, Seq::empty())) by {
            assert(memory.calls() =~= m0.calls() + Seq::<Call>::empty());
        }
        assert(turned(w0, idle, Err(Error::EINVAL), walk@, base as int, end as int));
        return Err(Error::EINVAL);
    }
    let read = read_bytes(memory, walk.cursor, 4);
    let mut body: Vec<u8> = match read {
        Err(e) => {
            let ghost r = Reply { head: Err(e), ..idle };
            assert(turned(w0, r, Err(e), walk@, base as int, end as int));
            return Err(e);
        },
        Ok(head) => head,
    };
    let ghost head = body@;
    let ghost m1 = *memory;
    let header: u32 = get32(body.as_slice(), 0);
    let size: u64 = match block_size(header) {
        Err(e) => {
            let ghost r = Reply { head: Ok(head), ..idle };
            assert(turned(w0, r, Err(e), walk@, base as int, end as int));
            return Err(e);
        },
        Ok(size) => size,
    };
    if size > end - walk.cursor {
        let ghost r = Reply { head: Ok(head), ..idle };
        assert(turned(w0, r, Err(Error::EINVAL), walk@, base as int, end as int));
        return Err(Error::EINVAL);
    }
    // The header that was decoded is kept even if the stream is edited concurrently, so edits cannot
    // expand the bounds that were checked.
    let read = read_bytes(memory, walk.cursor + 4, (size - 4) as usize);
    let ghost told = seq![
        Call::Read { address: w0.cursor, count: 4, bytes: Ok(head) },
        Call::Read { address: (w0.cursor + 4) as u64, count: size - 4, bytes: told_by(read) },
    ];
    proof {
        lemma_asked_on(m0, m1, *memory, seq![told[0]], seq![told[1]]);
        assert(seq![told[0]] + seq![told[1]] =~= told);
    }
    let mut rest: Vec<u8> = match read {
        Err(e) => {
            let ghost r = Reply { head: Ok(head), rest: Err(e), cover: None };
            assert(turned(w0, r, Err(e), walk@, base as int, end as int));
            return Err(e);
        },
        Ok(rest) => rest,
    };
    let ghost tail = rest@;
    body.append(&mut rest);
    let ghost m2 = *memory;
    let ghost fine = Reply { head: Ok(head), rest: Ok(tail), cover: None };
    match walk.step(header, body.as_slice(), end) {
        Err(e) => {
            assert(turned(w0, fine, Err(e), walk@, base as int, end as int));
            Err(e)
        },
        Ok(Action::Cover { address, size: covered }) => {
            let fault = readable(memory, address, covered);
            let ghost r = Reply { cover: fault, ..fine };
            proof {
                let call = Call::Cover { address, size: covered, permissions: 2, fault };
                lemma_asked_on(m0, m2, *memory, told, seq![call]);
                assert(told + seq![call] =~= block_calls(w0, r, base as int, end as int));
            }
            match fault {
                Some(e) => {
                    assert(turned(w0, r, Err(e), walk@, base as int, end as int));
                    Err(e)
                },
                None => {
                    assert(turned(w0, r, Ok(None), walk@, base as int, end as int));
                    Ok(None)
                },
            }
        },
        Ok(Action::Next) => {
            assert(turned(w0, fine, Ok(None), walk@, base as int, end as int));
            Ok(None)
        },
        Ok(Action::Finish { resource }) => {
            let fault = readable(memory, resource, 0x4000);
            let ghost r = Reply { cover: fault, ..fine };
            proof {
                let call = Call::Cover { address: resource, size: 0x4000, permissions: 2, fault };
                lemma_asked_on(m0, m2, *memory, told, seq![call]);
                assert(told + seq![call] =~= block_calls(w0, r, base as int, end as int));
            }
            match fault {
                Some(e) => {
                    assert(turned(w0, r, Err(e), walk@, base as int, end as int));
                    Err(e)
                },
                None => {
                    assert(turned(w0, r, Ok(Some(resource)), walk@, base as int, end as int));
                    Ok(Some(resource))
                },
            }
        },
    }
}

/// Whether a walk from `w`, with `left` blocks to go, ends a walk of a stream whose first blocks got some
/// replies and led to some calls.
spec fn continues(
    first: WalkView,
    replies: Seq<Reply>,
    told: Seq<Call>,
    w: WalkView,
    left: nat,
    base: int,
    end: int,
) -> bool {
    forall|s: Seq<Reply>|
        {
            &&& #[trigger] run(first, replies + s, 4096, base, end) == run(w, s, left, base, end)
            &&& walk_calls(first, replies + s, 4096, base, end) == told + walk_calls(
                w,
                s,
                left,
                base,
                end,
            )
        }
}

/// A walk goes on by one block.
proof fn lemma_continues(
    first: WalkView,
    replies: Seq<Reply>,
    told: Seq<Call>,
    w: WalkView,
    left: nat,
    base: int,
    end: int,
    reply: Reply,
)
    requires
        0 < left,
        continues(first, replies, told, w, left, base, end),
    ensures
        ({
            let calls = told + block_calls(w, reply, base, end);
            match turn_of(w, reply, base, end) {
                Turn::Over { answer } => {
                    &&& run(first, replies.push(reply), 4096, base, end) == Some(answer)
                    &&& walk_calls(first, replies.push(reply), 4096, base, end) == calls
                },
                Turn::On { walk } => continues(
                    first,
                    replies.push(reply),
                    calls,
                    walk,
                    (left - 1) as nat,
                    base,
                    end,
                ),
            }
        }),
{
    let next = replies.push(reply);
    let block = block_calls(w, reply, base, end);
    match turn_of(w, reply, base, end) {
        Turn::Over { answer } => {
            assert(next =~= replies + seq![reply]);
            assert(run(first, replies + seq![reply], 4096, base, end) == run(
                w,
                seq![reply],
                left,
                base,
                end,
            ));
            assert(block + Seq::<Call>::empty() =~= block);
        },
        Turn::On { walk } => {
            assert forall|s: Seq<Reply>|
                {
                    &&& #[trigger] run(first, next + s, 4096, base, end) == run(
                        walk,
                        s,
                        (left - 1) as nat,
                        base,
                        end,
                    )
                    &&& walk_calls(first, next + s, 4096, base, end) == (told + block) + walk_calls(
                        walk,
                        s,
                        (left - 1) as nat,
                        base,
                        end,
                    )
                } by {
                let more = seq![reply] + s;
                assert(next + s =~= replies + more);
                assert(more.skip(1) =~= s);
                assert(more[0] == reply);
                assert(run(first, replies + more, 4096, base, end) == run(w, more, left, base, end));
                let later = walk_calls(walk, s, (left - 1) as nat, base, end);
                assert(told + (block + later) =~= (told + block) + later);
            }
        },
    }
}

/// Walks a command stream and answers the resource table that all its launches share. The memory is asked
/// for just what the walk needs: whether the stream is readable as a whole, then, block by block, its header,
/// the rest of it and the range that it names, and last whether the table is readable.
pub fn resource<M: Memory>(memory: &mut M, base: u64, end: u64) -> (out: Result<u64, Error>)
    ensures
        exists|readable: Option<Error>, replies: Seq<Reply>|
            {
                &&& replies.len() <= 4096
                &&& #[trigger] answer(base, end, readable, replies) == Some(out)
                &&& asked(
                    *old(memory),
                    *final(memory),
                    stream_calls(base, end, readable, replies),
                )
            },
        base >= end || base % 4 != 0 || end % 4 != 0 ==> out == Err::<u64, Error>(Error::EINVAL)
            && final(memory).calls() == old(memory).calls(),
        out is Ok ==> {
            let table = out->Ok_0;
            &&& in_aperture(table as int)
            &&& table % 0x8000 == 0
            &&& final(memory).calls().last() == (Call::Cover {
                address: table,
                size: 0x4000,
                permissions: 2,
                fault: None,
            })
        },
{
    let ghost m0 = *memory;
    let ghost mut replies: Seq<Reply> = Seq::empty();
    if base >= end || base % 4 != 0 || end % 4 != 0 {
        assert(m0.calls() + Seq::<Call>::empty() =~= m0.calls());
        assert(answer(base, end, None, replies) == Some(Err::<u64, Error>(Error::EINVAL)));
        return Err(Error::EINVAL);
    }
    let whole = readable(memory, base, end - base);
    match whole {
        Some(e) => {
            assert(answer(base, end, whole, replies) == Some(Err::<u64, Error>(e)));
            return Err(e);
        },
        None => {},
    }
    let mut walk = Walk { cursor: base, stack: Vec::new(), selected: None };
    let ghost first = walk@;
    let ghost opening = seq![
        Call::Cover { address: base, size: (end - base) as u64, permissions: 2, fault: whole },
    ];
    let ghost mut told: Seq<Call> = Seq::empty();
    proof {
        assert(opening + told =~= opening);
        assert forall|s: Seq<Reply>|
            {
                &&& #[trigger] run(first, replies + s, 4096, base as int, end as int) == run(
                    first,
                    s,
                    4096,
                    base as int,
                    end as int,
                )
                &&& walk_calls(first, replies + s, 4096, base as int, end as int) == told
                    + walk_calls(first, s, 4096, base as int, end as int)
            } by {
            assert(replies + s =~= s);
            let later = walk_calls(first, s, 4096, base as int, end as int);
            assert(told + later =~= later);
        }
    }
    let mut left: u64 = BUDGET;
    while left > 0
        invariant
            left <= 4096,
            base < end,
            base % 4 == 0,
            end % 4 == 0,
            m0 == *old(memory),
            whole is None,
            first == (WalkView { cursor: base, stack: Seq::empty(), selected: None }),
            opening == seq![
                Call::Cover { address: base, size: (end - base) as u64, permissions: 2, fault: whole },
            ],
            replies.len() + left == 4096,
            walk.tabled(),
            asked(m0, *memory, opening + told),
            continues(first, replies, told, walk@, left as nat, base as int, end as int),
        decreases left,
    {
        let ghost w0 = walk@;
        let ghost m1 = *memory;
        let taken: Result<Option<u64>, Error> = take_block(memory, &mut walk, base, end);
        let ghost r = choose|r: Reply|
            {
                &&& #[trigger] turned(w0, r, taken, walk@, base as int, end as int)
                &&& asked(m1, *memory, block_calls(w0, r, base as int, end as int))
            };
        let ghost block = block_calls(w0, r, base as int, end as int);
        proof {
            lemma_asked_on(m0, m1, *memory, opening + told, block);
            assert((opening + told) + block =~= opening + (told + block));
            lemma_continues(
                first,
                replies,
                told,
                w0,
                left as nat,
                base as int,
                end as int,
                r,
            );
            replies = replies.push(r);
            told = told + block;
        }
        match taken {
            Err(e) => {
                assert(answer(base, end, whole, replies) == Some(Err::<u64, Error>(e)));
                return Err(e);
            },
            Ok(Some(resource)) => {
                proof {
                    assert(answer(base, end, whole, replies) == Some(Ok::<u64, Error>(resource)));
                    lemma_last_call(w0, r, base as int, end as int, resource);
                    assert(memory.calls().last() == block.last());
                }
                return Ok(resource);
            },
            Ok(None) => {},
        }
        left -= 1;
    }
    proof {
        assert(replies + Seq::<Reply>::empty() =~= replies);
        assert(run(first, replies + Seq::empty(), 4096, base as int, end as int) == Some(
            Err::<u64, Error>(Error::EINVAL),
        ));
        assert(told + Seq::<Call>::empty() =~= told);
        assert(answer(base, end, whole, replies) == Some(Err::<u64, Error>(Error::EINVAL)));
    }
    Err(Error::EINVAL)
}

/// The block that ends a stream asks last whether the table is readable.
proof fn lemma_last_call(w: WalkView, reply: Reply, base: int, end: int, resource: u64)
    requires
        turn_of(w, reply, base, end) == (Turn::Over { answer: Ok(resource) }),
    ensures
        ({
            let calls = block_calls(w, reply, base, end);
            &&& calls.len() > 0
            &&& calls.last() == (Call::Cover {
                address: resource,
                size: 0x4000,
                permissions: 2,
                fault: None,
            })
        }),
{
    reveal(turn_of);
    reveal(block_calls);
}

/// Whether a call reads only bytes of a stream.
pub open spec fn reads_inside(call: Call, base: int, end: int) -> bool {
    call matches Call::Read { address, count, .. } ==> base <= address && 0 <= count && address + count
        <= end
}

/// No byte outside a stream is read, whatever the memory answers, and wherever the stream jumps to.
pub proof fn lemma_reads_inside(base: u64, end: u64, readable: Option<Error>, replies: Seq<Reply>, i: int)
    requires
        0 <= i < stream_calls(base, end, readable, replies).len(),
    ensures
        reads_inside(stream_calls(base, end, readable, replies)[i], base as int, end as int),
{
    if i > 0 {
        lemma_walk_inside(
            WalkView { cursor: base, stack: Seq::empty(), selected: None },
            replies,
            4096,
            base as int,
            end as int,
            i - 1,
        );
    }
}

proof fn lemma_walk_inside(w: WalkView, replies: Seq<Reply>, budget: nat, base: int, end: int, i: int)
    requires
        0 <= base,
        end <= u64::MAX,
        0 <= i < walk_calls(w, replies, budget, base, end).len(),
    ensures
        reads_inside(walk_calls(w, replies, budget, base, end)[i], base, end),
    decreases budget,
{
    let block = block_calls(w, replies[0], base, end);
    if i < block.len() {
        reveal(block_calls);
        reveal(size_of);
    } else {
        match turn_of(w, replies[0], base, end) {
            Turn::Over { .. } => {},
            Turn::On { walk } => {
                lemma_walk_inside(
                    walk,
                    replies.skip(1),
                    (budget - 1) as nat,
                    base,
                    end,
                    i - block.len(),
                );
            },
        }
    }
}

/// Whether two calls ask for the same.
pub open spec fn same_question(a: Call, b: Call) -> bool {
    match (a, b) {
        (Call::Read { address: x, count: m, .. }, Call::Read { address: y, count: n, .. }) => x == y && m
            == n,
        (
            Call::Cover { address: x, size: m, permissions: p, .. },
            Call::Cover { address: y, size: n, permissions: q, .. },
        ) => x == y && m == n && p == q,
        _ => false,
    }
}

/// Whether a memory has one answer to every question, as one that nobody writes to.
pub open spec fn settled<M: Memory>(memory: M) -> bool {
    forall|a: Call, b: Call|
        #[trigger] memory.admits(a) && #[trigger] memory.admits(b) && same_question(a, b) ==> a == b
}

/// Whether a memory may answer all of some calls as it did.
pub open spec fn all_admitted<M: Memory>(memory: M, calls: Seq<Call>) -> bool {
    forall|i: int| 0 <= i < calls.len() ==> memory.admits(#[trigger] calls[i])
}

/// The answer for a stream follows from what the memory holds: a memory that has one answer to every
/// question leads to one answer.
pub proof fn lemma_answer_settled<M: Memory>(
    memory: M,
    base: u64,
    end: u64,
    one: (Option<Error>, Seq<Reply>),
    other: (Option<Error>, Seq<Reply>),
)
    requires
        settled(memory),
        all_admitted(memory, stream_calls(base, end, one.0, one.1)),
        all_admitted(memory, stream_calls(base, end, other.0, other.1)),
        answer(base, end, one.0, one.1) is Some,
        answer(base, end, other.0, other.1) is Some,
    ensures
        answer(base, end, one.0, one.1) == answer(base, end, other.0, other.1),
{
    if base < end && base % 4 == 0 && end % 4 == 0 {
        let a = stream_calls(base, end, one.0, one.1);
        let b = stream_calls(base, end, other.0, other.1);
        assert(memory.admits(a[0]) && memory.admits(b[0]));
        assert(a[0] == b[0]);
        if one.0 is None {
            let first = WalkView { cursor: base, stack: Seq::empty(), selected: None };
            lemma_skip_admitted(memory, seq![a[0]], walk_calls(first, one.1, 4096, base as int, end as int));
            lemma_skip_admitted(memory, seq![b[0]], walk_calls(first, other.1, 4096, base as int, end as int));
            lemma_run_settled(memory, first, one.1, other.1, 4096, base as int, end as int);
        }
    }
}

proof fn lemma_skip_admitted<M: Memory>(memory: M, first: Seq<Call>, rest: Seq<Call>)
    requires
        all_admitted(memory, first + rest),
    ensures
        all_admitted(memory, first),
        all_admitted(memory, rest),
{
    let all = first + rest;
    assert forall|i: int| 0 <= i < first.len() implies memory.admits(#[trigger] first[i]) by {
        assert(all[i] == first[i]);
    }
    assert forall|i: int| 0 <= i < rest.len() implies memory.admits(#[trigger] rest[i]) by {
        assert(all[first.len() + i] == rest[i]);
    }
}

/// What a memory with one answer to every question makes of a block.
proof fn lemma_block_settled<M: Memory>(memory: M, w: WalkView, a: Reply, b: Reply, base: int, end: int)
    requires
        settled(memory),
        all_admitted(memory, block_calls(w, a, base, end)),
        all_admitted(memory, block_calls(w, b, base, end)),
    ensures
        turn_of(w, a, base, end) == turn_of(w, b, base, end),
{
    reveal(turn_of);
    reveal(block_calls);
    let x = block_calls(w, a, base, end);
    let y = block_calls(w, b, base, end);
    if x.len() > 0 && y.len() > 0 {
        assert(memory.admits(x[0]) && memory.admits(y[0]));
        assert(a.head == b.head);
        if x.len() > 1 && y.len() > 1 {
            assert(memory.admits(x[1]) && memory.admits(y[1]));
            assert(a.rest == b.rest);
            if x.len() > 2 && y.len() > 2 {
                assert(memory.admits(x[2]) && memory.admits(y[2]));
                assert(a.cover == b.cover);
            }
        }
    }
}

proof fn lemma_run_settled<M: Memory>(
    memory: M,
    w: WalkView,
    a: Seq<Reply>,
    b: Seq<Reply>,
    budget: nat,
    base: int,
    end: int,
)
    requires
        settled(memory),
        all_admitted(memory, walk_calls(w, a, budget, base, end)),
        all_admitted(memory, walk_calls(w, b, budget, base, end)),
        run(w, a, budget, base, end) is Some,
        run(w, b, budget, base, end) is Some,
    ensures
        run(w, a, budget, base, end) == run(w, b, budget, base, end),
    decreases budget,
{
    if budget > 0 {
        let next = (budget - 1) as nat;
        let x = match turn_of(w, a[0], base, end) {
            Turn::Over { .. } => Seq::empty(),
            Turn::On { walk } => walk_calls(walk, a.skip(1), next, base, end),
        };
        let y = match turn_of(w, b[0], base, end) {
            Turn::Over { .. } => Seq::empty(),
            Turn::On { walk } => walk_calls(walk, b.skip(1), next, base, end),
        };
        lemma_skip_admitted(memory, block_calls(w, a[0], base, end), x);
        lemma_skip_admitted(memory, block_calls(w, b[0], base, end), y);
        lemma_block_settled(memory, w, a[0], b[0], base, end);
        match turn_of(w, a[0], base, end) {
            Turn::Over { .. } => {},
            Turn::On { walk } => {
                lemma_run_settled(memory, walk, a.skip(1), b.skip(1), next, base, end);
            },
        }
    }
}

} // verus!
