//! Growth of the buffer of a client when the firmware asks for it.
use crate::bytes;
use crate::bytes::w32;
use crate::device::MAX_TVB_BLOCKS;
use crate::error::Error;
use crate::operands;
use crate::operands::OperandPool;
use crate::plan;
use crate::plan::{push_write, Write};
use crate::prot;
use crate::space;
use crate::space::AddressSpace;
use crate::space_alloc;
use crate::tables;
use crate::tables::TableMemory;
use crate::tvb;
use crate::tvb::{Observed, Tvb};
use crate::walk;
use vstd::prelude::*;

verus! {

/// Number of blocks of a new buffer, which lie apart from those that it grows by.
pub const FIRST_BLOCKS: u32 = 11;

/// Number of blocks that are backed at once.
pub const STEP: u32 = 10;

/// Distance between two blocks.
pub const BLOCK_STRIDE: u64 = 0x28000;

/// Where the next block of a buffer goes. Blocks lie behind each other from the start of the client's
/// range for them.
pub fn growth_address(start: u64, blocks: u32) -> (out: Option<u64>)
    ensures
        out == if blocks >= FIRST_BLOCKS && start + (blocks - FIRST_BLOCKS) * BLOCK_STRIDE <= u64::MAX {
            Some((start + (blocks - FIRST_BLOCKS) * BLOCK_STRIDE) as u64)
        } else {
            None
        },
{
    if blocks < FIRST_BLOCKS {
        return None;
    }
    start.checked_add((blocks - FIRST_BLOCKS) as u64 * BLOCK_STRIDE)
}

/// The number of blocks that there is memory for, by halving what is asked for: none where not even one
/// more can be had, an error where the range for them is in use.
pub open spec fn grant(
    client: AddressSpace,
    mem: TableMemory,
    frames: int,
    base: int,
    blocks: int,
    new: int,
) -> Option<Result<int, Error>>
    decreases new - blocks,
{
    let count = new - blocks;
    let refused = client.blocks_refused(mem, base, 0, count, frames);
    if count <= 0 {
        None
    } else if base % 0x8000 != 0 {
        Some(Err(Error::EINVAL))
    } else if refused is None {
        Some(Ok(new))
    } else if refused->0 is Err {
        Some(Err(refused->0->Err_0))
    } else if count == 1 {
        None
    } else {
        grant(client, mem, frames, base, blocks, blocks + count / 2)
    }
}

/// What a walk records does not decide about blocks.
proof fn lemma_refused_same(
    a: AddressSpace,
    ma: TableMemory,
    b: AddressSpace,
    mb: TableMemory,
    base: int,
    k: int,
    count: int,
    frames: int,
)
    requires
        a.same_but_walked(b),
        ma.map() == mb.map(),
    ensures
        a.blocks_refused(ma, base, k, count, frames) == b.blocks_refused(mb, base, k, count, frames),
    decreases count - k,
{
    if k < count {
        lemma_conflicts_same(a, ma, b, mb, base + k * 0x28000, 0, 10);
        lemma_refused_same(a, ma, b, mb, base, k + 1, count, frames);
    }
}

/// Blocks are refused without an error only for want of frames.
proof fn lemma_refused_is_false(client: AddressSpace, mem: TableMemory, base: int, k: int, count: int, frames: int)
    ensures
        client.blocks_refused(mem, base, k, count, frames) matches Some(Ok(done)) ==> !done,
    decreases count - k,
{
    if k < count {
        lemma_refused_is_false(client, mem, base, k + 1, count, frames);
    }
}

proof fn lemma_conflicts_same(
    a: AddressSpace,
    ma: TableMemory,
    b: AddressSpace,
    mb: TableMemory,
    va: int,
    k: int,
    n: int,
)
    requires
        a.same_but_walked(b),
        ma.map() == mb.map(),
    ensures
        a.first_conflict(ma, va, k, n) == b.first_conflict(mb, va, k, n),
    decreases n - k,
{
    if k < n {
        assert(a.low.tree(ma) == b.low.tree(mb));
        lemma_conflicts_same(a, ma, b, mb, va, k + 1, n);
    }
}

/// What is stored once blocks are backed: their entries in the block list, then the two counts.
pub open spec fn growth_writes(pool: Tvb, base: int, new: int) -> Seq<plan::Stored> {
    let a = pool.addresses;
    seq![
        (
            (a.buffer_manager_block_list + pool.blocks * 8) as u64,
            bytes::image(((new - pool.blocks) * 8) as nat, tvb::block_entries(base, new - pool.blocks)),
            true,
        ),
        (
            a.buffer_manager_block_control,
            bytes::image(8, seq![w32(0, new as u32), w32(4, new as u32)]),
            true,
        ),
    ]
}

/// Whether a client shows new blocks of some frames, and else what it did.
pub open spec fn blocks_shown(
    c0: AddressSpace,
    m0: TableMemory,
    f0: Seq<u64>,
    c: AddressSpace,
    m: TableMemory,
    base: int,
    count: int,
) -> bool {
    forall|q: int|
        tables::in_tree(q) ==> #[trigger] c.entry(m, q) == match space_alloc::block_frame(
            base,
            count,
            q,
        ) {
            Some(k) => f0[f0.len() - 1 - k] | AddressSpace::bits(prot::prot_gpu_shared_rw()),
            None => c0.entry(m0, q),
        }
}

/// What is left when some blocks, and then some more behind them, were put behind frames of a pool.
proof fn lemma_blocks_joined(pages: Map<u64, u64>, base: int, frames: Seq<u64>, done: int, k: int)
    requires
        0 <= done,
        0 <= k,
        8 * done + k <= frames.len(),
    ensures
        space_alloc::blocks_with(
            space_alloc::blocks_with(pages, base, frames, 8 * done),
            base + done * 0x28000,
            frames.take(frames.len() - 8 * done),
            k,
        ) == space_alloc::blocks_with(pages, base, frames, 8 * done + k),
    decreases k,
{
    if k > 0 {
        lemma_blocks_joined(pages, base, frames, done, k - 1);
        let rest = frames.take(frames.len() - 8 * done);
        assert(rest[rest.len() - k] == frames[frames.len() - (8 * done + k)]);
        assert((8 * done + k - 1) / 8 == done + (k - 1) / 8);
        assert((8 * done + k - 1) % 8 == (k - 1) % 8);
    }
}

/// A page of later blocks is not owned on account of earlier ones.
proof fn lemma_later_not_owned(pages: Map<u64, u64>, base: int, frames: Seq<u64>, k: int, v: int)
    requires
        0 <= base,
        0 <= k,
        base + ((k + 7) / 8) * 0x28000 <= v <= u64::MAX,
    ensures
        space_alloc::blocks_with(pages, base, frames, k).contains_key(v as u64) == pages.contains_key(
            v as u64,
        ),
    decreases k,
{
    if k > 0 {
        assert((k - 1 + 7) / 8 <= (k + 7) / 8);
        assert((k - 1) / 8 + 1 == (k + 7) / 8);
        lemma_later_not_owned(pages, base, frames, k - 1, v);
        assert(space_alloc::block_page(base, k - 1) < v);
    }
}

/// Whether the first blocks of a growth are backed, and all else is as it was.
spec fn backed_upto(
    c0: AddressSpace,
    m0: TableMemory,
    f0: Seq<u64>,
    c: AddressSpace,
    m: TableMemory,
    f: Seq<u64>,
    base: int,
    done: int,
) -> bool {
    &&& 8 * done <= f0.len()
    &&& f == f0.take(f0.len() - 8 * done)
    &&& c.pages@ == space_alloc::blocks_with(c0.pages@, base, f0, 8 * done)
    &&& blocks_shown(c0, m0, f0, c, m, base, done)
    &&& m.free@.len() + 16 * done >= m0.free@.len()
}

/// Blocks behind those that are backed meet what they met.
proof fn lemma_ahead_not_refused(
    c0: AddressSpace,
    m0: TableMemory,
    f0: Seq<u64>,
    c: AddressSpace,
    m: TableMemory,
    f: Seq<u64>,
    base: int,
    done: int,
    step: int,
    k: int,
    count: int,
)
    requires
        0 <= done,
        0 <= k <= step,
        done + step <= count,
        0 <= base,
        base % 0x8000 == 0,
        base + count * 0x28000 <= u64::MAX,
        backed_upto(c0, m0, f0, c, m, f, base, done),
        c0.blocks_refused(m0, base, done + k, count, f0.len() as int) is None,
    ensures
        c.blocks_refused(m, base + done * 0x28000, k, step, f.len() as int) is None,
    decreases step - k,
{
    if k < step {
        let b = done + k;
        let va = base + b * 0x28000;
        assert(va == base + done * 0x28000 + k * 0x28000);
        assert(c0.first_conflict(m0, va, 0, 10) is None);
        lemma_ahead_free(c0, m0, f0, c, m, f, base, done, va, 0);
        lemma_ahead_not_refused(c0, m0, f0, c, m, f, base, done, step, k + 1, count);
    }
}

proof fn lemma_ahead_free(
    c0: AddressSpace,
    m0: TableMemory,
    f0: Seq<u64>,
    c: AddressSpace,
    m: TableMemory,
    f: Seq<u64>,
    base: int,
    done: int,
    va: int,
    i: int,
)
    requires
        0 <= done,
        0 <= i,
        0 <= base,
        base % 0x8000 == 0,
        base + done * 0x28000 <= va,
        va % 0x4000 == 0,
        va + 0x28000 <= u64::MAX,
        backed_upto(c0, m0, f0, c, m, f, base, done),
        c0.first_conflict(m0, va, i, 10) is None,
    ensures
        c.first_conflict(m, va, i, 10) is None,
    decreases 10 - i,
{
    if i < 10 {
        let v = va + i * 0x4000;
        assert(c0.conflict(m0, v) is None);
        assert((8 * done + 7) / 8 == done);
        lemma_later_not_owned(c0.pages@, base, f0, 8 * done, v);
        let q = v / 0x4000;
        assert(tables::in_tree(q));
        assert(space_alloc::block_frame(base, done, q) is None);
        assert(c.entry(m, q) == c0.entry(m0, q));
        lemma_ahead_free(c0, m0, f0, c, m, f, base, done, va, i + 1);
    }
}

/// A prefix of blocks that are not refused leaves the others not refused.
proof fn lemma_refused_tail(client: AddressSpace, mem: TableMemory, base: int, k: int, done: int, count: int, frames: int)
    requires
        0 <= k <= done <= count,
        client.blocks_refused(mem, base, k, count, frames) is None,
    ensures
        client.blocks_refused(mem, base, done, count, frames) is None,
        frames >= 8 * count || k == count,
    decreases count - k,
{
    if k < count {
        if k < done {
            lemma_refused_tail(client, mem, base, k + 1, done, count, frames);
        } else {
            lemma_refused_tail(client, mem, base, k + 1, k + 1, count, frames);
        }
    }
}

/// The frames behind some blocks are those behind the first of them, and then those behind the others.
proof fn lemma_frames_split(base: int, done: int, step: int, q: int)
    requires
        0 <= base,
        0 <= done,
        0 <= step,
    ensures
        space_alloc::block_frame(base, done + step, q) == match space_alloc::block_frame(
            base + done * 0x28000,
            step,
            q,
        ) {
            Some(k) => Some(8 * done + k),
            None => space_alloc::block_frame(base, done, q),
        },
        space_alloc::block_frame(base + done * 0x28000, step, q) is Some ==> 0
            <= space_alloc::block_frame(base + done * 0x28000, step, q)->0 < 8 * step,
{
    let d = q - base / 0x4000;
    assert((base + done * 0x28000) / 0x4000 == base / 0x4000 + 10 * done);
    assert((d - 10 * done) % 10 == d % 10 && (d - 10 * done) / 10 == d / 10 - done);
}

/// More blocks are backed behind those that are.
proof fn lemma_backed_on(
    c0: AddressSpace,
    m0: TableMemory,
    f0: Seq<u64>,
    c1: AddressSpace,
    m1: TableMemory,
    f1: Seq<u64>,
    c: AddressSpace,
    m: TableMemory,
    f: Seq<u64>,
    base: int,
    done: int,
    step: int,
)
    requires
        0 <= base,
        0 <= done,
        0 < step,
        8 * (done + step) <= f0.len(),
        backed_upto(c0, m0, f0, c1, m1, f1, base, done),
        backed_upto(c1, m1, f1, c, m, f, base + done * 0x28000, step),
    ensures
        backed_upto(c0, m0, f0, c, m, f, base, done + step),
{
    lemma_blocks_joined(c0.pages@, base, f0, done, 8 * step);
    assert(f =~= f0.take(f0.len() - 8 * (done + step)));
    assert forall|q: int| tables::in_tree(q) implies #[trigger] c.entry(m, q)
        == match space_alloc::block_frame(base, done + step, q) {
        Some(k) => f0[f0.len() - 1 - k] | AddressSpace::bits(prot::prot_gpu_shared_rw()),
        None => c0.entry(m0, q),
    } by {
        lemma_frames_split(base, done, step, q);
        assert(c1.entry(m1, q) == match space_alloc::block_frame(base, done, q) {
            Some(k) => f0[f0.len() - 1 - k] | AddressSpace::bits(prot::prot_gpu_shared_rw()),
            None => c0.entry(m0, q),
        });
        match space_alloc::block_frame(base + done * 0x28000, step, q) {
            Some(k) => {
                assert(f1[f1.len() - 1 - k] == f0[f0.len() - 1 - (8 * done + k)]);
            },
            None => {},
        }
    }
}

/// Whether pages outside new blocks are as they were.
pub open spec fn rest_kept(
    c0: AddressSpace,
    m0: TableMemory,
    c: AddressSpace,
    m: TableMemory,
    base: int,
    count: int,
) -> bool {
    forall|q: int|
        tables::in_tree(q) && space_alloc::block_frame(base, count, q) is None ==> #[trigger] c.entry(m, q)
            == c0.entry(m0, q)
}

/// Backs blocks that are not refused, some at once. Where tables run out, those that were begun stay.
#[verifier::rlimit(40)]
fn back_blocks(
    client: &mut AddressSpace,
    mem: &mut TableMemory,
    frames: &mut Vec<u64>,
    base: u64,
    count: u32,
) -> (out: Result<(), Error>)
    requires
        old(client).wf(*old(mem)),
        space::frames_ok(old(frames)@),
        0 < count <= 7168,
        base % 0x8000 == 0,
        base + count * BLOCK_STRIDE <= u64::MAX,
        old(client).blocks_refused(
            *old(mem),
            base as int,
            0,
            count as int,
            old(frames)@.len() as int,
        ) is None,
    ensures
        final(client).wf(*final(mem)),
        walk::framed(old(client).low.tree(*old(mem)), final(client).low.tree(*final(mem))),
        walk::extends(old(client).low.tree(*old(mem)), final(client).low.tree(*final(mem))),
        final(client).same_roots(*old(client)),
        match out {
            Ok(_) => backed_upto(
                *old(client),
                *old(mem),
                old(frames)@,
                *final(client),
                *final(mem),
                final(frames)@,
                base as int,
                count as int,
            ),
            Err(e) => {
                &&& e == Error::ENOMEM
                &&& old(mem).free@.len() < 16 * count
                &&& taken_upto(
                    *old(client),
                    old(frames)@,
                    *final(client),
                    final(frames)@,
                    base as int,
                    count as int,
                )
                &&& rest_kept(
                    *old(client),
                    *old(mem),
                    *final(client),
                    *final(mem),
                    base as int,
                    count as int,
                )
            },
        },
{
    let ghost c0 = *client;
    let ghost m0 = *mem;
    let ghost f0 = frames@;
    let mut done: u32 = 0;
    proof {
        walk::lemma_framed_refl(c0.low.tree(m0));
        assert(f0.take(f0.len() as int) =~= f0);
        lemma_refused_tail(c0, m0, base as int, 0, 0, count as int, f0.len() as int);
    }
    while done < count
        invariant
            done <= count <= 7168,
            base % 0x8000 == 0,
            base + count * BLOCK_STRIDE <= u64::MAX,
            c0 == *old(client),
            m0 == *old(mem),
            f0 == old(frames)@,
            8 * count <= f0.len(),
            space::frames_ok(f0),
            c0.blocks_refused(m0, base as int, 0, count as int, f0.len() as int) is None,
            client.wf(*mem),
            client.same_roots(c0),
            walk::framed(c0.low.tree(m0), client.low.tree(*mem)),
            walk::extends(c0.low.tree(m0), client.low.tree(*mem)),
            backed_upto(c0, m0, f0, *client, *mem, frames@, base as int, done as int),
        decreases count - done,
    {
        let rest: u32 = count - done;
        let step: u32 = if rest < STEP {
            rest
        } else {
            STEP
        };
        let at: u64 = base + done as u64 * BLOCK_STRIDE;
        let ghost c1 = *client;
        let ghost m1 = *mem;
        let ghost f1 = frames@;
        proof {
            assert(done * 0x28000 % 0x8000 == 0) by {
                assert(done * 0x28000 == (done * 5) * 0x8000);
            }
            lemma_refused_tail(
                c0,
                m0,
                base as int,
                0,
                done as int,
                count as int,
                f0.len() as int,
            );
            lemma_ahead_not_refused(
                c0,
                m0,
                f0,
                c1,
                m1,
                f1,
                base as int,
                done as int,
                step as int,
                0,
                count as int,
            );
        }
        let backed = client.alloc_tvb_blocks(mem, frames, at, step as u64);
        proof {
            walk::lemma_framed_trans(c0.low.tree(m0), c1.low.tree(m1), client.low.tree(*mem));
            walk::lemma_extends_trans(c0.low.tree(m0), c1.low.tree(m1), client.low.tree(*mem));
        }
        match backed {
            Err(e) => {
                proof {
                    lemma_blocks_joined(c0.pages@, base as int, f0, done as int, 8 * step);
                    assert(frames@ =~= f0.take(f0.len() - 8 * (done + step)));
                    assert(taken_upto(c0, f0, *client, frames@, base as int, count as int)) by {
                        assert(client.pages@ == space_alloc::blocks_with(
                            c0.pages@,
                            base as int,
                            f0,
                            8 * (done + step),
                        ));
                    }
                    lemma_rest_of_step(
                        c0,
                        m0,
                        f0,
                        c1,
                        m1,
                        *client,
                        *mem,
                        base as int,
                        done as int,
                        step as int,
                        count as int,
                    );
                }
                return Err(e);
            },
            Ok(_) => {},
        }
        proof {
            assert(backed_upto(c1, m1, f1, *client, *mem, frames@, at as int, step as int));
            lemma_backed_on(
                c0,
                m0,
                f0,
                c1,
                m1,
                f1,
                *client,
                *mem,
                frames@,
                base as int,
                done as int,
                step as int,
            );
        }
        done = done + step;
    }
    Ok(())
}

/// Whether some of the frames for new blocks were taken, each put behind the next page.
pub open spec fn taken_upto(
    c0: AddressSpace,
    f0: Seq<u64>,
    c: AddressSpace,
    f: Seq<u64>,
    base: int,
    count: int,
) -> bool {
    exists|n: int|
        {
            &&& 0 < n <= count
            &&& 8 * n <= f0.len()
            &&& f == f0.take(f0.len() - 8 * n)
            &&& c.pages@ == #[trigger] space_alloc::blocks_with(c0.pages@, base, f0, 8 * n)
        }
}

/// A step that fails leaves pages outside the growth as they were.
proof fn lemma_rest_of_step(
    c0: AddressSpace,
    m0: TableMemory,
    f0: Seq<u64>,
    c1: AddressSpace,
    m1: TableMemory,
    c: AddressSpace,
    m: TableMemory,
    base: int,
    done: int,
    step: int,
    count: int,
)
    requires
        0 <= base,
        0 <= done,
        0 <= step,
        done + step <= count,
        blocks_shown(c0, m0, f0, c1, m1, base, done),
        rest_kept(c1, m1, c, m, base + done * 0x28000, step),
    ensures
        rest_kept(c0, m0, c, m, base, count),
{
    assert forall|q: int|
        tables::in_tree(q) && space_alloc::block_frame(base, count, q) is None implies #[trigger] c.entry(
        m,
        q,
    ) == c0.entry(m0, q) by {
        lemma_frames_split(base, done + step, count - done - step, q);
        lemma_frames_split(base, done, step, q);
        assert(c1.entry(m1, q) == c0.entry(m0, q));
    }
}

impl Tvb {
    /// Grows the buffer for a request of the firmware. Headroom is optional: where memory is short, fewer
    /// blocks are tried. No entry is changed before all pages of the blocks are there. Answers what is to be
    /// stored for the firmware; nothing where the buffer stays as it is.
    pub fn extend(
        &mut self,
        client: &mut AddressSpace,
        mem: &mut TableMemory,
        frames: &mut Vec<u64>,
        base: u64,
        seen: Observed,
        limit: u32,
    ) -> (out: Result<Option<Vec<Write>>, Error>)
        requires
            old(self).wf(),
            old(client).wf(*old(mem)),
            space::frames_ok(old(frames)@),
            0x10_0000_0000 <= base,
            base + GROWTH_SPAN <= u64::MAX,
            old(self).addresses.buffer_manager_block_list + old(self).blocks * 8 <= u64::MAX,
        ensures
            final(self).wf(),
            final(client).wf(*final(mem)),
            walk::framed(old(client).low.tree(*old(mem)), final(client).low.tree(*final(mem))),
            walk::extends(old(client).low.tree(*old(mem)), final(client).low.tree(*final(mem))),
            final(client).same_roots(*old(client)),
            *final(self) == (Tvb { blocks: final(self).blocks, ..*old(self) }),
            ({
                let blocks = old(self).blocks as int;
                let f0 = old(frames)@;
                let new = tvb::target(blocks, tvb::bound(limit) as int);
                let room = grant(*old(client), *old(mem), f0.len() as int, base as int, blocks, new);
                let untouched = final(client).same_but_walked(*old(client)) && final(mem).map()
                    == old(mem).map() && final(mem).free@ == old(mem).free@ && final(frames)@ == f0
                    && final(self).blocks == blocks;
                if !old(self).consistent(seen) || new > seen.capacity || new * 16 > 0x1c000 {
                    out is Err && out->Err_0 == Error::EIO && untouched
                } else {
                    match room {
                        None => out is Ok && out->Ok_0 is None && untouched,
                        Some(Err(e)) => out is Err && out->Err_0 == e && untouched,
                        Some(Ok(n)) => {
                            &&& blocks < n <= new
                            &&& match out {
                                Ok(writes) => {
                                    &&& writes is Some
                                    &&& plan::stored(writes->0@) == growth_writes(
                                        *old(self),
                                        base as int,
                                        n,
                                    )
                                    &&& final(self).blocks == n
                                    &&& final(frames)@ == f0.take(f0.len() - 8 * (n - blocks))
                                    &&& final(client).pages@ == space_alloc::blocks_with(
                                        old(client).pages@,
                                        base as int,
                                        f0,
                                        8 * (n - blocks),
                                    )
                                    &&& blocks_shown(
                                        *old(client),
                                        *old(mem),
                                        f0,
                                        *final(client),
                                        *final(mem),
                                        base as int,
                                        n - blocks,
                                    )
                                },
                                Err(e) => {
                                    &&& e == Error::ENOMEM
                                    &&& old(mem).free@.len() < 16 * (n - blocks)
                                    &&& final(self).blocks == blocks
                                    &&& taken_upto(
                                        *old(client),
                                        f0,
                                        *final(client),
                                        final(frames)@,
                                        base as int,
                                        n - blocks,
                                    )
                                    &&& rest_kept(
                                        *old(client),
                                        *old(mem),
                                        *final(client),
                                        *final(mem),
                                        base as int,
                                        n - blocks,
                                    )
                                },
                            }
                        },
                    }
                }
            }),
    {
        let mut new: u32 = match self.grow(seen, limit) {
            Err(e) => {
                return Err(e);
            },
            Ok(None) => {
                return Ok(None);
            },
            Ok(Some(new)) => new,
        };
        if base % 0x8000 != 0 {
            return Err(Error::EINVAL);
        }
        let blocks: u32 = self.blocks;
        let have: u64 = frames.len() as u64;
        let ghost goal = new as int;
        let ghost f0 = frames@;
        let ghost c0 = *client;
        let ghost m0 = *mem;
        loop
            invariant
                *self == *old(self),
                c0 == *old(client),
                m0 == *old(mem),
                f0 == old(frames)@,
                blocks == self.blocks,
                blocks < new <= goal <= 7168,
                self.addresses.buffer_manager_block_list + blocks * 8 <= u64::MAX,
                0x10_0000_0000 <= base,
                base % 0x8000 == 0,
                base + GROWTH_SPAN <= u64::MAX,
                client.wf(*mem),
                space::frames_ok(frames@),
                client.same_but_walked(c0),
                mem.map() == m0.map(),
                mem.free@ == m0.free@,
                frames@ == f0,
                have == f0.len(),
                goal == tvb::target(blocks as int, tvb::bound(limit) as int),
                self.consistent(seen),
                goal <= seen.capacity,
                goal * 16 <= 0x1c000,
                grant(c0, m0, f0.len() as int, base as int, blocks as int, new as int) == grant(
                    c0,
                    m0,
                    f0.len() as int,
                    base as int,
                    blocks as int,
                    goal,
                ),
            decreases new,
        {
            let count: u32 = new - blocks;
            let ghost c1 = *client;
            let ghost m1 = *mem;
            proof {
                assert(c1.low.tree(m1) == c0.low.tree(m0));
                lemma_refused_same(c1, m1, c0, m0, base as int, 0, count as int, f0.len() as int);
                lemma_refused_is_false(c1, m1, base as int, 0, count as int, f0.len() as int);
            }
            match client.find_refusal(mem, base, count as u64, have) {
                Some(Err(e)) => {
                    assert(client.low.tree(*mem) == c0.low.tree(m0));
                    return Err(e);
                },
                Some(Ok(_)) => {},
                None => {
                    let ghost c2 = *client;
                    let ghost m2 = *mem;
                    proof {
                        assert(c2.low.tree(m2) == c0.low.tree(m0));
                        lemma_refused_same(c2, m2, c0, m0, base as int, 0, count as int, f0.len() as int);
                    }
                    let backed = back_blocks(client, mem, frames, base, count);
                    proof {
                        lemma_outcome_same(c0, m0, c2, m2, f0, *client, *mem, base as int, count as int, backed);
                    }
                    match backed {
                        Err(e) => {
                            return Err(e);
                        },
                        Ok(()) => {},
                    }
                    let mut writes: Vec<Write> = Vec::new();
                    let (list, entries): (u64, Vec<u8>) = self.entries(base, new);
                    push_write(&mut writes, list, entries.as_slice(), true);
                    let (control, counts): (u64, [u8; 8]) = self.counts(new);
                    push_write(&mut writes, control, &counts, true);
                    assert(plan::stored(writes@) =~= growth_writes(
                        *old(self),
                        base as int,
                        new as int,
                    ));
                    self.grown(new);
                    return Ok(Some(writes));
                },
            }
            assert(client.low.tree(*mem) == c0.low.tree(m0));
            match self.smaller(new) {
                None => {
                    return Ok(None);
                },
                Some(less) => {
                    new = less;
                },
            }
        }
    }
}

/// What holds from a space that was only walked holds from the space before.
proof fn lemma_outcome_same(
    c0: AddressSpace,
    m0: TableMemory,
    c2: AddressSpace,
    m2: TableMemory,
    f0: Seq<u64>,
    c: AddressSpace,
    m: TableMemory,
    base: int,
    count: int,
    out: Result<(), Error>,
)
    requires
        c2.low.tree(m2) == c0.low.tree(m0),
        out is Ok ==> blocks_shown(c2, m2, f0, c, m, base, count),
        out is Err ==> rest_kept(c2, m2, c, m, base, count),
    ensures
        out is Ok ==> blocks_shown(c0, m0, f0, c, m, base, count),
        out is Err ==> rest_kept(c0, m0, c, m, base, count),
{
    assert forall|q: int| tables::in_tree(q) implies #[trigger] c2.entry(m2, q) == c0.entry(m0, q) by {}
}

/// The addresses that a growth may take.
pub const GROWTH_SPAN: u64 = 0x4600_0000;

/// A request of the firmware is given three times the blocks, within the limit, where there are frames for
/// them and their place is free.
pub proof fn lemma_headroom_given(
    client: AddressSpace,
    mem: TableMemory,
    frames: int,
    base: int,
    blocks: int,
    limit: int,
)
    requires
        base % 0x8000 == 0,
        blocks < tvb::target(blocks, limit),
        frames >= 8 * (tvb::target(blocks, limit) - blocks),
        forall|b: int|
            0 <= b < tvb::target(blocks, limit) - blocks ==> client.first_conflict(
                mem,
                #[trigger] (base + b * 0x28000),
                0,
                10,
            ) is None,
    ensures
        grant(client, mem, frames, base, blocks, tvb::target(blocks, limit)) == Some(
            Ok::<int, Error>(tvb::target(blocks, limit)),
        ),
{
    lemma_not_refused(client, mem, frames, base, 0, tvb::target(blocks, limit) - blocks);
}

proof fn lemma_not_refused(client: AddressSpace, mem: TableMemory, frames: int, base: int, b: int, count: int)
    requires
        0 <= b,
        frames >= 8 * count,
        forall|k: int|
            b <= k < count ==> client.first_conflict(mem, #[trigger] (base + k * 0x28000), 0, 10) is None,
    ensures
        client.blocks_refused(mem, base, b, count, frames) is None,
    decreases count - b,
{
    if b < count {
        assert(client.first_conflict(mem, base + b * 0x28000, 0, 10) is None);
        lemma_not_refused(client, mem, frames, base, b + 1, count);
    }
}

/// Every block that a buffer may grow by lies in the client's range for growth.
pub proof fn lemma_growth_fits(pool: OperandPool, blocks: int)
    requires
        FIRST_BLOCKS <= blocks < MAX_TVB_BLOCKS,
    ensures
        ({
            let start = operands::round_block(pool.end_of());
            start + (blocks - FIRST_BLOCKS) * BLOCK_STRIDE + BLOCK_STRIDE <= start + 0x3200000
        }),
{
    assert((blocks - FIRST_BLOCKS + 1) * 0x28000 <= 320 * 0x28000) by (nonlinear_arith)
        requires
            blocks - FIRST_BLOCKS + 1 <= 320,
    ;
}

/// A grant is more than there was, and no more than was asked for.
pub proof fn lemma_grant_bounded(
    client: AddressSpace,
    mem: TableMemory,
    frames: int,
    base: int,
    blocks: int,
    new: int,
)
    ensures
        grant(client, mem, frames, base, blocks, new) matches Some(Ok(n)) ==> blocks < n <= new,
    decreases new - blocks,
{
    let count = new - blocks;
    if count > 1 {
        lemma_grant_bounded(client, mem, frames, base, blocks, blocks + count / 2);
    }
}

} // verus!
