//! What the walk of a compute stream answers, block by block and as a whole.
use crate::bytes;
use crate::cdm;
use crate::cdm::{Reply, Step, Turn, WalkView};
use crate::error::Error;
use vstd::prelude::*;

verus! {

/// The pipeline address that the words of a launch spell: eight high bits and the words of 64 bytes below.
pub open spec fn spelled(body: Seq<u8>) -> int {
    (bytes::u32_in(body, 12) % 256) * 0x100_0000_0000 + bytes::u32_in(body, 8) * 64
}

/// A launch takes the table five times 64 KiB behind the 32 KiB that hold its pipeline. It is refused where
/// its mark is missing or one of the two is outside the aperture, and where another table is selected; else
/// it selects the table, moves behind itself, and asks for its indirect size.
pub proof fn lemma_launch(w: WalkView, header: int, body: Seq<u8>, end: int)
    requires
        0 <= header < 0x1800_0000,
        w.cursor + 0x28 <= u64::MAX,
    ensures
        ({
            let pipeline = spelled(body);
            let table = pipeline - pipeline % 0x8000 + 0x5_0000;
            let marked = (bytes::u32_in(body, 12) / 0x4000_0000) % 2 == 1;
            let inside = 0x100_0000_0000 <= pipeline < 0x101_0000_0000 && table < 0x101_0000_0000;
            let mode = header / 0x800_0000;
            match cdm::step_of(w, header, body, end) {
                Step::Fail { error } => if !marked || !inside {
                    error == Error::EINVAL
                } else {
                    error == Error::ENOTSUPP && w.selected is Some && w.selected->0 != table
                },
                Step::Go { walk, cover } => {
                    &&& marked && inside
                    &&& w.selected is Some ==> w.selected->0 == table
                    &&& walk.selected is Some && walk.selected->0 == table
                    &&& walk.stack == w.stack
                    &&& walk.cursor == w.cursor + (if mode == 0 {
                        0x28int
                    } else if mode == 1 {
                        0x24
                    } else {
                        0x18
                    })
                    &&& mode == 0 ==> cover is None
                    &&& mode != 0 ==> cover is Some && (cover->0).0 == bytes::u32_in(body, 0x10)
                        * 0x1_0000_0000 + bytes::u32_in(body, 0x14) && (cover->0).1 == 12 * mode
                },
                Step::Done { .. } => false,
            }
        }),
{
    reveal(cdm::step_of);
    reveal(cdm::size_of);
    let pipeline = spelled(body);
    assert(pipeline / 0x8000 * 0x8000 == pipeline - pipeline % 0x8000);
}

/// No block unselects a table, and only a launch selects one.
pub proof fn lemma_selection_kept(w: WalkView, header: int, body: Seq<u8>, end: int)
    requires
        0 <= header,
    ensures
        cdm::step_of(w, header, body, end) matches Step::Go { walk, .. } ==> {
            &&& w.selected is Some ==> walk.selected == w.selected
            &&& header >= 0x2000_0000 ==> walk.selected == w.selected
            &&& header < 0x2000_0000 ==> walk.selected is Some
        },
        cdm::step_of(w, header, body, end) matches Step::Done { resource } ==> w.selected == Some(resource),
{
    reveal(cdm::step_of);
}

/// A jump goes where its words say. Where it is a call, the walk comes back behind it; no more than 32 calls
/// are open at a time.
pub proof fn lemma_jump(w: WalkView, header: int, body: Seq<u8>, end: int)
    requires
        0x2000_0000 <= header < 0x4000_0000,
        w.cursor + 8 <= u64::MAX,
    ensures
        ({
            let call = header >= 0x3000_0000;
            match cdm::step_of(w, header, body, end) {
                Step::Fail { error } => error == Error::EINVAL && call && w.stack.len() == 32,
                Step::Go { walk, cover } => {
                    &&& !(call && w.stack.len() == 32)
                    &&& cover is None
                    &&& walk.cursor == (header % 256) * 0x1_0000_0000 + bytes::u32_in(body, 4)
                    &&& !call ==> walk.stack == w.stack
                    &&& call ==> walk.stack.len() == w.stack.len() + 1 && walk.stack.last() == w.cursor
                        + 8 && walk.stack.drop_last() == w.stack
                    &&& walk.selected == w.selected
                },
                Step::Done { .. } => false,
            }
        }),
{
    reveal(cdm::step_of);
    reveal(cdm::size_of);
    assert(w.stack.push((w.cursor + 8) as u64).drop_last() =~= w.stack);
}

/// A barrier moves the walk behind itself, and does nothing else.
pub proof fn lemma_barrier(w: WalkView, header: int, body: Seq<u8>, end: int)
    requires
        0x6000_0000 <= header < 0x8000_0000,
        w.cursor + 4 <= u64::MAX,
    ensures
        cdm::step_of(w, header, body, end) matches Step::Go { walk, cover } && cover is None && walk.cursor
            == w.cursor + 4 && walk.stack == w.stack && walk.selected == w.selected,
{
    reveal(cdm::step_of);
    reveal(cdm::size_of);
}

/// A return undoes the last call: the walk is behind that call, with the calls that were open before it.
/// Without an open call it is refused.
pub proof fn lemma_call_returns(
    w: WalkView,
    call: (int, Seq<u8>),
    later: WalkView,
    back: (int, Seq<u8>),
    end: int,
)
    requires
        0x3000_0000 <= call.0 < 0x4000_0000,
        0x8000_0000 <= back.0 < 0xa000_0000,
        w.cursor + 8 <= u64::MAX,
    ensures
        (cdm::step_of(w, call.0, call.1, end) matches Step::Go { walk, .. } && walk.stack == later.stack) ==> (
        cdm::step_of(later, back.0, back.1, end) matches Step::Go { walk, cover } && cover is None
            && walk.cursor == w.cursor + 8 && walk.stack == w.stack && walk.selected == later.selected),
        later.stack.len() == 0 ==> cdm::step_of(later, back.0, back.1, end) == (Step::Fail {
            error: Error::EINVAL,
        }),
{
    reveal(cdm::step_of);
    reveal(cdm::size_of);
    assert(w.stack.push((w.cursor + 8) as u64).drop_last() =~= w.stack);
}

/// A stream ends only where it ends: with its last word, with no call open, and with a table selected.
pub proof fn lemma_terminator(w: WalkView, header: int, body: Seq<u8>, end: int)
    requires
        0x4000_0000 <= header < 0x6000_0000,
    ensures
        match cdm::step_of(w, header, body, end) {
            Step::Fail { error } => if w.stack.len() != 0 || w.cursor + 4 != end {
                error == Error::EINVAL
            } else {
                error == Error::ENOTSUPP && w.selected is None
            },
            Step::Go { .. } => false,
            Step::Done { resource } => w.stack.len() == 0 && w.cursor + 4 == end && w.selected == Some(
                resource,
            ),
        },
{
    reveal(cdm::step_of);
    reveal(cdm::size_of);
}

/// The size of a block follows from the top bits of its header: a launch is as long as its mode asks for, a jump
/// has two words, all else has one, and what does not exist has no size.
pub proof fn lemma_block_sizes(header: int)
    requires
        0 <= header < 0x1_0000_0000,
    ensures
        header < 0x800_0000 ==> cdm::size_of(header) == Some(0x28int),
        0x800_0000 <= header < 0x1000_0000 ==> cdm::size_of(header) == Some(0x24int),
        0x1000_0000 <= header < 0x1800_0000 ==> cdm::size_of(header) == Some(0x18int),
        0x1800_0000 <= header < 0x2000_0000 ==> cdm::size_of(header) is None,
        0x2000_0000 <= header < 0x4000_0000 ==> cdm::size_of(header) == Some(8int),
        0x4000_0000 <= header < 0xa000_0000 ==> cdm::size_of(header) == Some(4int),
        0xa000_0000 <= header ==> cdm::size_of(header) is None,
{
    reveal(cdm::size_of);
}

/// Where a walk is when it comes to its `i`-th block; none where it is over by then.
pub open spec fn walk_at(w: WalkView, replies: Seq<Reply>, i: int, base: int, end: int) -> Option<WalkView>
    decreases i,
{
    if i <= 0 {
        Some(w)
    } else {
        match cdm::turn_of(w, replies[0], base, end) {
            Turn::Over { .. } => None,
            Turn::On { walk } => walk_at(walk, replies.skip(1), i - 1, base, end),
        }
    }
}

/// Whether the memory told of a launch.
pub open spec fn tells_launch(reply: Reply) -> bool {
    reply.head is Ok && reply.rest is Ok && 0 <= bytes::u32_in(reply.head->Ok_0, 0) < 0x2000_0000
}

/// The table of the launch that the memory told of.
pub open spec fn told_table(reply: Reply) -> int {
    let pipeline = spelled(reply.head->Ok_0 + reply.rest->Ok_0);
    pipeline - pipeline % 0x8000 + 0x5_0000
}

/// The first block of a walk that is accepted is in bounds, and where it is a launch the table of the launch
/// is selected.
proof fn lemma_first_block(w: WalkView, reply: Reply, base: int, end: int)
    requires
        cdm::turn_of(w, reply, base, end) is On,
    ensures
        ({
            let walk = cdm::turn_of(w, reply, base, end)->On_walk;
            &&& w.selected is Some ==> walk.selected == w.selected
            &&& tells_launch(reply) ==> walk.selected is Some && walk.selected->0 == told_table(reply)
            &&& !tells_launch(reply) ==> walk.selected == w.selected
            &&& reply.head is Ok
            &&& base <= w.cursor
            &&& w.cursor + 4 <= end
            &&& w.cursor % 4 == 0
        }),
{
    reveal(cdm::turn_of);
    reveal(cdm::step_of);
    reveal(cdm::size_of);
    let pipeline = spelled(reply.head->Ok_0 + reply.rest->Ok_0);
    assert(pipeline / 0x8000 * 0x8000 == pipeline - pipeline % 0x8000);
}

/// A walk that has a table selected answers this table, or fails.
proof fn lemma_selected_is_answered(
    w: WalkView,
    replies: Seq<Reply>,
    budget: nat,
    base: int,
    end: int,
    table: u64,
)
    requires
        cdm::run(w, replies, budget, base, end) == Some(Ok::<u64, Error>(table)),
        w.selected is Some,
    ensures
        w.selected == Some(table),
    decreases budget,
{
    match cdm::turn_of(w, replies[0], base, end) {
        Turn::Over { .. } => {
            reveal(cdm::turn_of);
            reveal(cdm::step_of);
        },
        Turn::On { walk } => {
            lemma_first_block(w, replies[0], base, end);
            lemma_selected_is_answered(walk, replies.skip(1), (budget - 1) as nat, base, end, table);
        },
    }
}

proof fn lemma_run_table(
    w: WalkView,
    replies: Seq<Reply>,
    budget: nat,
    base: int,
    end: int,
    table: u64,
    i: int,
)
    requires
        cdm::run(w, replies, budget, base, end) == Some(Ok::<u64, Error>(table)),
        0 <= i < replies.len(),
        i < budget,
        walk_at(w, replies, i, base, end) is Some,
        tells_launch(replies[i]),
    ensures
        told_table(replies[i]) == table,
    decreases budget,
{
    match cdm::turn_of(w, replies[0], base, end) {
        Turn::Over { .. } => {
            reveal(cdm::turn_of);
            reveal(cdm::step_of);
        },
        Turn::On { walk } => {
            let next = (budget - 1) as nat;
            if i == 0 {
                lemma_first_block(w, replies[0], base, end);
                lemma_selected_is_answered(walk, replies.skip(1), next, base, end, table);
            } else {
                assert(replies.skip(1)[i - 1] == replies[i]);
                lemma_run_table(walk, replies.skip(1), next, base, end, table, i - 1);
            }
        },
    }
}

/// An accepted stream answers the table of every launch that its walk came to, whatever blocks lie between
/// them.
pub proof fn lemma_every_launch_answered(
    base: u64,
    end: u64,
    readable: Option<Error>,
    replies: Seq<Reply>,
    table: u64,
    i: int,
)
    requires
        cdm::answer(base, end, readable, replies) == Some(Ok::<u64, Error>(table)),
        0 <= i < replies.len(),
        i < 4096,
        walk_at(
            WalkView { cursor: base, stack: Seq::empty(), selected: None },
            replies,
            i,
            base as int,
            end as int,
        ) is Some,
        tells_launch(replies[i]),
    ensures
        told_table(replies[i]) == table,
{
    lemma_run_table(
        WalkView { cursor: base, stack: Seq::empty(), selected: None },
        replies,
        4096,
        base as int,
        end as int,
        table,
        i,
    );
}

/// A walk that starts without a table and is accepted has come to a launch.
proof fn lemma_run_launches(w: WalkView, replies: Seq<Reply>, budget: nat, base: int, end: int, table: u64) -> (i:
    int)
    requires
        cdm::run(w, replies, budget, base, end) == Some(Ok::<u64, Error>(table)),
        w.selected is None,
    ensures
        0 <= i < replies.len(),
        i < budget,
        walk_at(w, replies, i, base, end) is Some,
        tells_launch(replies[i]),
    decreases budget,
{
    match cdm::turn_of(w, replies[0], base, end) {
        Turn::Over { .. } => {
            reveal(cdm::turn_of);
            reveal(cdm::step_of);
            0
        },
        Turn::On { walk } => {
            lemma_first_block(w, replies[0], base, end);
            if tells_launch(replies[0]) {
                0
            } else {
                let k = lemma_run_launches(
                    walk,
                    replies.skip(1),
                    (budget - 1) as nat,
                    base,
                    end,
                    table,
                );
                assert(replies.skip(1)[k] == replies[k + 1]);
                k + 1
            }
        },
    }
}

/// A stream is accepted only where its walk came to a launch within the budget, and only where it is aligned
/// and readable as a whole.
pub proof fn lemma_accepted_launches(
    base: u64,
    end: u64,
    readable: Option<Error>,
    replies: Seq<Reply>,
    table: u64,
) -> (i: int)
    requires
        cdm::answer(base, end, readable, replies) == Some(Ok::<u64, Error>(table)),
    ensures
        base < end,
        base % 4 == 0,
        end % 4 == 0,
        readable is None,
        0 <= i < replies.len(),
        i < 4096,
        tells_launch(replies[i]),
        told_table(replies[i]) == table,
{
    let first = WalkView { cursor: base, stack: Seq::empty(), selected: None };
    let i = lemma_run_launches(first, replies, 4096, base as int, end as int, table);
    lemma_run_table(first, replies, 4096, base as int, end as int, table, i);
    i
}

/// A block is taken only where the walk is inside the stream, on a word, and the whole block fits.
pub proof fn lemma_blocks_inside(w: WalkView, reply: Reply, base: int, end: int)
    ensures
        w.cursor < base || w.cursor + 4 > end || w.cursor % 4 != 0 ==> cdm::turn_of(w, reply, base, end) == (
        Turn::Over { answer: Err(Error::EINVAL) }),
        base <= w.cursor && w.cursor + 4 <= end && w.cursor % 4 == 0 && reply.head is Err
            ==> cdm::turn_of(w, reply, base, end) == (Turn::Over { answer: Err(reply.head->Err_0) }),
        cdm::turn_of(w, reply, base, end) is On ==> base <= w.cursor && w.cursor + 4 <= end && w.cursor % 4
            == 0 && reply.head is Ok && reply.rest is Ok,
        cdm::turn_of(w, reply, base, end) is On && bytes::u32_in(reply.head->Ok_0, 0) < 0x800_0000
            ==> w.cursor + 0x28 <= end,
        cdm::turn_of(w, reply, base, end) is On && 0x2000_0000 <= bytes::u32_in(reply.head->Ok_0, 0)
            < 0x4000_0000 ==> w.cursor + 8 <= end,
        cdm::turn_of(w, reply, base, end) is On && 0x800_0000 <= bytes::u32_in(reply.head->Ok_0, 0)
            < 0x2000_0000 ==> w.cursor + 0x18 <= end && reply.cover is None,
        cdm::turn_of(w, reply, base, end) matches Turn::Over { answer: Ok(_) } ==> w.cursor + 4 == end
            && reply.cover is None,
{
    reveal(cdm::turn_of);
    reveal(cdm::step_of);
    reveal(cdm::size_of);
}

/// A walk without end is cut off: a stream that is still going after its budget of blocks is refused.
pub proof fn lemma_budget(w: WalkView, replies: Seq<Reply>, budget: nat, base: int, end: int)
    requires
        replies.len() >= budget,
        walk_at(w, replies, budget as int, base, end) is Some,
    ensures
        cdm::run(w, replies, budget, base, end) == Some(Err::<u64, Error>(Error::EINVAL)),
    decreases budget,
{
    if budget > 0 {
        match cdm::turn_of(w, replies[0], base, end) {
            Turn::Over { .. } => {},
            Turn::On { walk } => {
                lemma_budget(walk, replies.skip(1), (budget - 1) as nat, base, end);
            },
        }
    }
}

} // verus!
