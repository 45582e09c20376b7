//! Backing of tiler growth and of the private render storage of a client.
use crate::error::Error;
use crate::operands;
use crate::operands::OperandPool;
use crate::prot;
use crate::render;
use crate::space;
use crate::space::AddressSpace;
use crate::tables;
use crate::tables::TableMemory;
use crate::walk;
use core::ops::Range;
use vstd::prelude::*;

verus! {

/// A part of a write that lies in one owned page: where it goes, and which bytes of the source it is.
#[derive(Clone, Copy, Debug, PartialEq, Eq, Structural)]
pub struct Chunk {
    pub frame: u64,
    pub within: u64,
    pub from: u64,
    pub size: u64,
}

/// The parts of a write to owned pages, up to the first page that is not owned.
pub open spec fn chunks_of(pages: Map<u64, u64>, va: int, from: int, len: int) -> (
    Seq<Chunk>,
    Result<(), Error>,
)
    decreases len - from,
{
    if from >= len {
        (Seq::empty(), Ok(()))
    } else {
        let base = va / 0x4000 * 0x4000;
        if !pages.contains_key(base as u64) {
            (Seq::empty(), Err(Error::EINVAL))
        } else {
            let room = 0x4000 - va % 0x4000;
            let size = if len - from < room {
                len - from
            } else {
                room
            };
            let chunk = Chunk {
                frame: pages[base as u64],
                within: (va % 0x4000) as u64,
                from: from as u64,
                size: size as u64,
            };
            if va + size > u64::MAX {
                (seq![chunk], Err(Error::EINVAL))
            } else {
                let rest = chunks_of(pages, va + size, from + size, len);
                (seq![chunk] + rest.0, rest.1)
            }
        }
    }
}

/// Whether a part of a write takes byte `i` of the source to an address.
pub open spec fn carries(pages: Map<u64, u64>, chunk: Chunk, i: int, address: int) -> bool {
    &&& chunk.from <= i < chunk.from + chunk.size
    &&& chunk.frame == pages[(address / 0x4000 * 0x4000) as u64]
    &&& chunk.within + (i - chunk.from) == address % 0x4000
}

/// Every byte of a write that succeeds goes to the page and offset of its address.
pub proof fn lemma_chunk_target(pages: Map<u64, u64>, va: int, from: int, len: int, i: int)
    requires
        0 <= va <= u64::MAX,
        0 <= from <= i < len <= u64::MAX,
        chunks_of(pages, va, from, len).1 is Ok,
    ensures
        exists|k: int|
            0 <= k < chunks_of(pages, va, from, len).0.len() && carries(
                pages,
                #[trigger] chunks_of(pages, va, from, len).0[k],
                i,
                va + (i - from),
            ),
    decreases len - from,
{
    let all = chunks_of(pages, va, from, len).0;
    let room = 0x4000 - va % 0x4000;
    let size = if len - from < room {
        len - from
    } else {
        room
    };
    let address = va + (i - from);
    if i < from + size {
        assert(address / 0x4000 == va / 0x4000);
        assert(carries(pages, all[0], i, address));
    } else {
        lemma_chunk_target(pages, va + size, from + size, len, i);
        let rest = chunks_of(pages, va + size, from + size, len).0;
        let k = choose|k: int|
            0 <= k < rest.len() && carries(
                pages,
                #[trigger] chunks_of(pages, va + size, from + size, len).0[k],
                i,
                va + size + (i - (from + size)),
            );
        assert(all[k + 1] == rest[k]);
    }
}

/// Position in the pool of the frame behind a page of new tiler blocks. Blocks lie ten pages apart and
/// are backed by eight.
pub open spec fn block_frame(base: int, count: int, page: int) -> Option<int> {
    let d = page - base / 0x4000;
    if 0 <= d < 10 * count && d % 10 < 8 {
        Some((d / 10) * 8 + d % 10)
    } else {
        None
    }
}

/// Address of the page behind the `k`-th frame of new tiler blocks.
pub open spec fn block_page(base: int, k: int) -> int {
    base + (k / 8) * 0x28000 + (k % 8) * 0x4000
}

/// The pages that are owned after `k` frames were put behind new tiler blocks.
pub open spec fn blocks_with(pages: Map<u64, u64>, base: int, frames: Seq<u64>, k: int) -> Map<u64, u64>
    decreases k,
{
    if k <= 0 {
        pages
    } else {
        blocks_with(pages, base, frames, k - 1).insert(
            block_page(base, k - 1) as u64,
            frames[frames.len() - k],
        )
    }
}

/// Whether an entry is a mapping of a frame with the rights of shared client memory.
pub open spec fn is_shared(entry: u64) -> bool {
    exists|frame: u64|
        tables::frame_of(frame, 0x3ff_ffff_ffff) == frame && entry == (#[trigger] (frame
            | AddressSpace::bits(prot::prot_gpu_shared_rw())))
}

/// A shared mapping is valid, and names a frame.
proof fn lemma_shared(entry: u64)
    requires
        is_shared(entry),
    ensures
        tables::is_valid(entry),
        tables::frame_of(
            tables::frame_of(entry, 0x3ff_ffff_ffff),
            0x3ff_ffff_ffff,
        ) == tables::frame_of(entry, 0x3ff_ffff_ffff),
        entry == tables::frame_of(entry, 0x3ff_ffff_ffff) | AddressSpace::bits(
            prot::prot_gpu_shared_rw(),
        ),
{
    let frame = choose|frame: u64|
        tables::frame_of(frame, 0x3ff_ffff_ffff) == frame && entry == (#[trigger] (frame
            | AddressSpace::bits(prot::prot_gpu_shared_rw())));
    prot::lemma_mapping_frame(frame, prot::prot_gpu_shared_rw(), 0x803, 0x3ff_ffff_ffff);
}

impl AddressSpace {
    /// Splits a write to owned pages into its parts.
    pub fn write_low(&self, va: u64, len: u64) -> (out: (Vec<Chunk>, Result<(), Error>))
        ensures
            out.0@ == chunks_of(self.pages@, va as int, 0, len as int).0,
            out.1 == chunks_of(self.pages@, va as int, 0, len as int).1,
    {
        broadcast use vstd::std_specs::hash::group_hash_axioms;

        let mut out: Vec<Chunk> = Vec::new();
        let mut at: u64 = va;
        let mut from: u64 = 0;
        let ghost want = chunks_of(self.pages@, va as int, 0, len as int);
        assert(out@ + want.0 =~= want.0);
        while from < len
            invariant
                from <= len,
                want == chunks_of(self.pages@, va as int, 0, len as int),
                want.0 == out@ + chunks_of(self.pages@, at as int, from as int, len as int).0,
                want.1 == chunks_of(self.pages@, at as int, from as int, len as int).1,
            decreases len - from,
        {
            let ghost rest = chunks_of(self.pages@, at as int, from as int, len as int);
            let ghost before = out@;
            let base: u64 = at / 0x4000 * 0x4000;
            let frame: u64 = match self.pages.get(&base) {
                None => {
                    assert(want.0 =~= out@);
                    return (out, Err(Error::EINVAL));
                },
                Some(frame) => *frame,
            };
            let within: u64 = at % 0x4000;
            let size: u64 = if len - from < 0x4000 - within {
                len - from
            } else {
                0x4000 - within
            };
            out.push(Chunk { frame, within, from, size });
            at = match at.checked_add(size) {
                None => {
                    assert(want.0 =~= out@);
                    return (out, Err(Error::EINVAL));
                },
                Some(next) => next,
            };
            from += size;
            proof {
                let tail = chunks_of(self.pages@, at as int, from as int, len as int);
                assert(before + rest.0 =~= out@ + tail.0);
            }
        }
        assert(want.0 =~= out@);
        (out, Ok(()))
    }

    /// Whether and why new tiler blocks are refused, block by block: a conflict in the ten pages of a
    /// block, or too few frames for the eight that are backed.
    pub open spec fn blocks_refused(
        self,
        mem: TableMemory,
        base: int,
        b: int,
        count: int,
        frames: int,
    ) -> Option<Result<bool, Error>>
        decreases count - b,
    {
        if b >= count {
            None
        } else {
            match self.first_conflict(mem, base + b * 0x28000, 0, 10) {
                Some(e) => Some(Err(e)),
                None => if frames < 8 * (b + 1) {
                    Some(Ok(false))
                } else {
                    self.blocks_refused(mem, base, b + 1, count, frames)
                },
            }
        }
    }

    /// Finds whether and why new tiler blocks would be refused when there are some frames for them.
    pub(crate) fn find_refusal(&mut self, mem: &mut TableMemory, base: u64, count: u64, have: u64) -> (out:
        Option<Result<bool, Error>>)
        requires
            old(self).wf(*old(mem)),
            base % 0x8000 == 0,
            count <= 7168,
            base + count * 0x28000 <= u64::MAX,
        ensures
            final(self).wf(*final(mem)),
            final(self).same_but_walked(*old(self)),
            final(mem).map() == old(mem).map(),
            final(mem).free@ == old(mem).free@,
            out == old(self).blocks_refused(
                *old(mem),
                base as int,
                0,
                count as int,
                have as int,
            ),
            out is None && count > 0 ==> have >= 8 * count && base + count * 0x28000
                <= 0x400_0000_0000,
    {
        let ghost s0 = *self;
        let ghost m0 = *mem;
        let mut b: u64 = 0;
        while b < count
            invariant
                b <= count <= 7168,
                base % 0x8000 == 0,
                base + count * 0x28000 <= u64::MAX,
                s0 == *old(self),
                m0 == *old(mem),
                self.wf(*mem),
                self.same_but_walked(s0),
                mem.map() == m0.map(),
                mem.free@ == m0.free@,
                have >= 8 * b,
                b > 0 ==> base + b * 0x28000 <= 0x400_0000_0000,
                s0.blocks_refused(m0, base as int, 0, count as int, have as int)
                    == s0.blocks_refused(m0, base as int, b as int, count as int, have as int),
            decreases count - b,
        {
            let start: u64 = base + b * 0x28000;
            let mut k: u64 = 0;
            while k < 10
                invariant
                    k <= 10,
                    b < count <= 7168,
                    base % 0x8000 == 0,
                    base + count * 0x28000 <= u64::MAX,
                    start == base + b * 0x28000,
                    s0 == *old(self),
                    m0 == *old(mem),
                    self.wf(*mem),
                    self.same_but_walked(s0),
                    mem.map() == m0.map(),
                    mem.free@ == m0.free@,
                    k > 0 ==> start + k * 0x4000 <= 0x400_0000_0000,
                    s0.first_conflict(m0, start as int, 0, 10) == s0.first_conflict(
                        m0,
                        start as int,
                        k as int,
                        10,
                    ),
                    s0.blocks_refused(m0, base as int, 0, count as int, have as int)
                        == s0.blocks_refused(m0, base as int, b as int, count as int, have as int),
                decreases 10 - k,
            {
                let ghost s1 = *self;
                match self.find_conflict(mem, start + k * 0x4000) {
                    Some(e) => {
                        assert(s1.conflict(*mem, start + k * 0x4000) == s0.conflict(
                            m0,
                            start + k * 0x4000,
                        ));
                        return Some(Err(e));
                    },
                    None => {},
                }
                assert(s0.conflict(m0, start + k * 0x4000) is None);
                k += 1;
            }
            if have < 8 * (b + 1) {
                return Some(Ok(false));
            }
            b += 1;
        }
        None
    }

    /// Backs new tiler blocks, all of them or none: no mapping is changed before every page is there.
    #[verifier::rlimit(40)]
    pub fn alloc_tvb_blocks(
        &mut self,
        mem: &mut TableMemory,
        frames: &mut Vec<u64>,
        base: u64,
        count: u64,
    ) -> (out: Result<bool, Error>)
        requires
            old(self).wf(*old(mem)),
            space::frames_ok(old(frames)@),
            count <= 10 ==> base + count * 0x28000 <= u64::MAX,
        ensures
            final(self).wf(*final(mem)),
            walk::framed(old(self).low.tree(*old(mem)), final(self).low.tree(*final(mem))),
            walk::extends(old(self).low.tree(*old(mem)), final(self).low.tree(*final(mem))),
            final(self).same_roots(*old(self)),
            ({
                let n = 8 * count;
                let f0 = old(frames)@;
                let refused = old(self).blocks_refused(
                    *old(mem),
                    base as int,
                    0,
                    count as int,
                    f0.len() as int,
                );
                let untouched = final(self).same_but_walked(*old(self)) && final(mem).map()
                    == old(mem).map() && final(mem).free@ == old(mem).free@ && final(frames)@ == f0;
                if count == 0 || count > 10 || base % 0x8000 != 0 {
                    out == Err::<bool, Error>(Error::EINVAL) && untouched
                } else if refused is Some {
                    out == refused->0 && untouched
                } else {
                    &&& final(frames)@ == f0.take(f0.len() - n)
                    &&& final(self).pages@ == blocks_with(old(self).pages@, base as int, f0, n as int)
                    &&& match out {
                        Ok(done) => {
                            &&& done
                            &&& final(mem).free@.len() + 2 * n >= old(mem).free@.len()
                            &&& forall|q: int|
                                tables::in_tree(q) ==> #[trigger] final(self).entry(*final(mem), q)
                                    == match block_frame(base as int, count as int, q) {
                                    Some(k) => f0[f0.len() - 1 - k] | Self::bits(
                                        prot::prot_gpu_shared_rw(),
                                    ),
                                    None => old(self).entry(*old(mem), q),
                                }
                        },
                        Err(e) => {
                            &&& e == Error::ENOMEM
                            &&& old(mem).free@.len() < 2 * n
                            &&& forall|q: int|
                                tables::in_tree(q) && block_frame(base as int, count as int, q)
                                    is None ==> #[trigger] final(self).entry(*final(mem), q)
                                    == old(self).entry(*old(mem), q)
                        },
                    }
                }
            }),
    {
        broadcast use vstd::std_specs::hash::group_hash_axioms;

        if count == 0 || count > 10 || base % 0x8000 != 0 {
            return Err(Error::EINVAL);
        }
        let ghost s0 = *self;
        let ghost m0 = *mem;
        let ghost f0 = frames@;
        let have: u64 = frames.len() as u64;
        match self.find_refusal(mem, base, count, have) {
            Some(refusal) => {
                return refusal;
            },
            None => {},
        }
        let n: u64 = 8 * count;
        let mut k: u64 = 0;
        let ghost s1 = *self;
        assert(self.low.tree(*mem) == s0.low.tree(m0));
        while k < n
            invariant
                k <= n,
                n == 8 * count,
                0 < count <= 10,
                base % 0x8000 == 0,
                base + count * 0x28000 <= 0x400_0000_0000,
                f0.len() >= n,
                f0 == old(frames)@,
                frames@ == f0,
                s1.wf(*mem),
                self.low == s1.low,
                self.high == s1.high,
                self.compute_scratch == s1.compute_scratch,
                self.render_scratch == s1.render_scratch,
                self.pages@ == blocks_with(s0.pages@, base as int, f0, k as int),
            decreases n - k,
        {
            let frame: u64 = frames[frames.len() - 1 - k as usize];
            let v: u64 = base + (k / 8) * 0x28000 + (k % 8) * 0x4000;
            self.pages.insert(v, frame);
            k += 1;
            assert(self.pages@ == blocks_with(s0.pages@, base as int, f0, k as int));
        }
        k = 0;
        let ghost bits = Self::bits(prot::prot_gpu_shared_rw());
        assert(self.low.tree(*mem) == s0.low.tree(m0));
        assert(self.high.tree(*mem) == s1.high.tree(*mem));
        while k < n
            invariant
                k <= n,
                n == 8 * count,
                0 < count <= 10,
                base % 0x8000 == 0,
                base + count * 0x28000 <= 0x400_0000_0000,
                f0.len() >= n,
                f0 == old(frames)@,
                s0 == *old(self),
                m0 == *old(mem),
                space::frames_ok(f0),
                frames@ == f0,
                bits == Self::bits(prot::prot_gpu_shared_rw()),
                self.wf(*mem),
                self.same_roots(s0),
                self.pages@ == blocks_with(s0.pages@, base as int, f0, n as int),
                mem.free@.len() + 2 * k >= m0.free@.len(),
                walk::framed(s0.low.tree(m0), self.low.tree(*mem)),
                walk::extends(s0.low.tree(m0), self.low.tree(*mem)),
                s0.blocks_refused(m0, base as int, 0, count as int, f0.len() as int) is None,
                forall|q: int|
                    tables::in_tree(q) ==> #[trigger] self.entry(*mem, q) == match block_frame(
                        base as int,
                        count as int,
                        q,
                    ) {
                        Some(j) => if j < k {
                            f0[f0.len() - 1 - j] | bits
                        } else {
                            s0.entry(m0, q)
                        },
                        None => s0.entry(m0, q),
                    },
            decreases n - k,
        {
            let ghost s2 = *self;
            let ghost m2 = *mem;
            let frame: u64 = frames[frames.len() - 1 - k as usize];
            let v: u64 = base + (k / 8) * 0x28000 + (k % 8) * 0x4000;
            let mapped = self.map_page(mem, v, frame, prot::prot_gpu_shared_rw());
            proof {
                walk::lemma_framed_trans(s0.low.tree(m0), s2.low.tree(m2), self.low.tree(*mem));
                walk::lemma_extends_trans(s0.low.tree(m0), s2.low.tree(m2), self.low.tree(*mem));
                lemma_block_page(base as int, count as int, k as int);
                assert forall|q: int| tables::in_tree(q) implies #[trigger] self.entry(*mem, q)
                    == match block_frame(base as int, count as int, q) {
                    Some(j) => if j < k + (if mapped is Ok {
                        1int
                    } else {
                        0
                    }) {
                        f0[f0.len() - 1 - j] | bits
                    } else {
                        s0.entry(m0, q)
                    },
                    None => s0.entry(m0, q),
                } by {
                    assert(s2.entry(m2, q) == match block_frame(base as int, count as int, q) {
                        Some(j) => if j < k {
                            f0[f0.len() - 1 - j] | bits
                        } else {
                            s0.entry(m0, q)
                        },
                        None => s0.entry(m0, q),
                    });
                    if q != v as int / 0x4000 && block_frame(base as int, count as int, q) is Some {
                        lemma_block_unique(base as int, count as int, q, v as int / 0x4000);
                    }
                }
            }
            match mapped {
                Err(e) => {
                    frames.truncate(frames.len() - n as usize);
                    assert(frames@ =~= f0.take(f0.len() - n));
                    return Err(e);
                },
                Ok(_) => {},
            }
            k += 1;
        }
        frames.truncate(frames.len() - n as usize);
        assert(frames@ =~= f0.take(f0.len() - n));
        Ok(true)
    }

    /// Maps the pages behind an address at a second address too.
    #[verifier::rlimit(40)]
    pub(crate) fn map_alias(&mut self, mem: &mut TableMemory, alias: u64, backing: u64, n: u64) -> (out:
        Result<(), Error>)
        requires
            old(self).wf(*old(mem)),
            alias % 0x4000 == 0,
            backing % 0x4000 == 0,
            alias + n * 0x4000 <= 0xffff_ffff_ffff_0000,
            backing + n * 0x4000 <= 0x400_0000_0000,
            forall|q: int|
                backing as int / 0x4000 <= q < backing as int / 0x4000 + n ==> is_shared(
                    #[trigger] old(self).entry(*old(mem), q),
                ),
        ensures
            final(self).wf(*final(mem)),
            walk::framed(old(self).low.tree(*old(mem)), final(self).low.tree(*final(mem))),
            walk::extends(old(self).low.tree(*old(mem)), final(self).low.tree(*final(mem))),
            final(self).pages@ == old(self).pages@,
            final(self).compute_scratch == old(self).compute_scratch,
            final(self).render_scratch == old(self).render_scratch,
            final(self).low.same_root(old(self).low),
            final(self).high == old(self).high,
            forall|q: int|
                tables::in_tree(q) && (tables::is_valid(old(self).entry(*old(mem), q)) || !(alias as int
                    / 0x4000 <= q < alias as int / 0x4000 + n)) ==> #[trigger] final(self).entry(
                    *final(mem),
                    q,
                ) == old(self).entry(*old(mem), q),
            match out {
                Ok(_) => {
                    &&& n > 0 ==> alias + n * 0x4000 <= 0x400_0000_0000
                    &&& forall|q: int|
                        alias as int / 0x4000 <= q < alias as int / 0x4000 + n
                            ==> !tables::is_valid(#[trigger] old(self).entry(*old(mem), q))
                    &&& forall|q: int|
                        alias as int / 0x4000 <= q < alias as int / 0x4000 + n
                            ==> #[trigger] final(self).entry(*final(mem), q) == old(self).entry(
                            *old(mem),
                            backing as int / 0x4000 + (q - alias as int / 0x4000),
                        )
                },
                Err(e) => {
                    ||| e == Error::ENOMEM && old(mem).free@.len() < 2 * n
                    ||| e == Error::EINVAL && alias + n * 0x4000 > 0x400_0000_0000
                    ||| e == Error::EEXIST && exists|q: int|
                        alias as int / 0x4000 <= q < alias as int / 0x4000 + n && tables::is_valid(
                            #[trigger] old(self).entry(*old(mem), q),
                        )
                },
            },
            final(mem).free@.len() + 2 * n >= old(mem).free@.len(),
    {
        let ghost s0 = *self;
        let ghost m0 = *mem;
        let ghost a = alias as int / 0x4000;
        let ghost b = backing as int / 0x4000;
        let mut k: u64 = 0;
        while k < n
            invariant
                k <= n,
                s0 == *old(self),
                m0 == *old(mem),
                a == alias as int / 0x4000,
                b == backing as int / 0x4000,
                s0.wf(m0),
                alias % 0x4000 == 0,
                backing % 0x4000 == 0,
                alias + n * 0x4000 <= 0xffff_ffff_ffff_0000,
                backing + n * 0x4000 <= 0x400_0000_0000,
                k > 0 ==> alias + k * 0x4000 <= 0x400_0000_0000,
                forall|q: int| b <= q < b + n ==> is_shared(#[trigger] s0.entry(m0, q)),
                self.wf(*mem),
                self.pages@ == s0.pages@,
                self.compute_scratch == s0.compute_scratch,
                self.render_scratch == s0.render_scratch,
                self.low.same_root(s0.low),
                self.high == s0.high,
                mem.free@.len() + 2 * k >= m0.free@.len(),
                walk::framed(s0.low.tree(m0), self.low.tree(*mem)),
                walk::extends(s0.low.tree(m0), self.low.tree(*mem)),
                forall|q: int| a <= q < a + k ==> !tables::is_valid(#[trigger] s0.entry(m0, q)),
                forall|q: int|
                    tables::in_tree(q) ==> #[trigger] self.entry(*mem, q) == if a <= q < a + k {
                        s0.entry(m0, b + (q - a))
                    } else {
                        s0.entry(m0, q)
                    },
            decreases n - k,
        {
            let ghost s1 = *self;
            let ghost m1 = *mem;
            let v: u64 = alias + k * 0x4000;
            let from: u64 = backing + k * 0x4000;
            proof {
                if v + 0x4000 <= 0x400_0000_0000 {
                    space::lemma_client_page(self.low, v);
                }
                space::lemma_client_page(self.low, from);
                assert(is_shared(s0.entry(m0, b + k)));
                lemma_shared(s0.entry(m0, b + k));
            }
            let taken = self.low.translate(mem, v);
            proof {
                self.lemma_walked(s1, m1, *mem);
                assert(a + k == v as int / 0x4000);
                if v + 0x4000 <= 0x400_0000_0000 {
                    assert(tables::in_tree(a + k));
                    assert(s1.entry(m1, a + k) == s0.entry(m0, a + k));
                }
                assert forall|q: int|
                    tables::in_tree(q) && (tables::is_valid(s0.entry(m0, q)) || !(a <= q < a
                        + n)) implies #[trigger] self.entry(*mem, q) == s0.entry(m0, q) by {
                    assert(s1.entry(m1, q) == if a <= q < a + k {
                        s0.entry(m0, b + (q - a))
                    } else {
                        s0.entry(m0, q)
                    });
                }
            }
            match taken {
                Err(e) => {
                    return Err(e);
                },
                Ok(Some(_)) => {
                    assert(tables::is_valid(s0.entry(m0, a + k)));
                    return Err(Error::EEXIST);
                },
                Ok(None) => {},
            }
            assert(!tables::is_valid(s0.entry(m0, a + k)));
            let ghost s2 = *self;
            let ghost m2 = *mem;
            assert(s2.entry(m2, b + k) == s1.entry(m1, b + k));
            assert(s1.entry(m1, b + k) == s0.entry(m0, b + k)) by {
                if a <= b + k < a + k {
                    assert(s0.entry(m0, a + (b + k - a)) == s0.entry(m0, b + k));
                }
            }
            let found = self.low.translate(mem, from);
            proof {
                self.lemma_walked(s2, m2, *mem);
            }
            let physical: u64 = match found {
                Err(e) => {
                    return Err(e);
                },
                Ok(None) => {
                    return Err(Error::EIO);
                },
                Ok(Some(physical)) => physical,
            };
            assert(physical == tables::frame_of(s0.entry(m0, b + k), 0x3ff_ffff_ffff));
            let ghost s3 = *self;
            let ghost m3 = *mem;
            let mapped = self.map_page(mem, v, physical, prot::prot_gpu_shared_rw());
            proof {
                walk::lemma_framed_trans(s0.low.tree(m0), s3.low.tree(m3), self.low.tree(*mem));
                walk::lemma_extends_trans(s0.low.tree(m0), s3.low.tree(m3), self.low.tree(*mem));
            }
            assert(a + k == v as int / 0x4000);
            assert forall|q: int| tables::in_tree(q) implies #[trigger] self.entry(*mem, q) == if a
                <= q < a + k + (if mapped is Ok {
                1int
            } else {
                0
            }) {
                s0.entry(m0, b + (q - a))
            } else {
                s0.entry(m0, q)
            } by {
                assert(s3.entry(m3, q) == s1.entry(m1, q));
            }
            match mapped {
                Err(e) => {
                    return Err(e);
                },
                Ok(_) => {},
            }
            k += 1;
        }
        Ok(())
    }

    /// Builds the private render storage of a client before its root is published: the storage itself,
    /// then the accelerator's aliases of it. Whoever fails part of the way discards the space. Answers
    /// the operand pool, by which the pages are initialized.
    #[verifier::rlimit(60)]
    pub fn alloc_render_private(
        &mut self,
        mem: &mut TableMemory,
        frames: &mut Vec<u64>,
        start: u64,
        end: u64,
    ) -> (out: Result<OperandPool, Error>)
        requires
            old(self).wf(*old(mem)),
            space::frames_ok(old(frames)@),
        ensures
            final(self).wf(*final(mem)),
            walk::framed(old(self).low.tree(*old(mem)), final(self).low.tree(*final(mem))),
            walk::extends(old(self).low.tree(*old(mem)), final(self).low.tree(*final(mem))),
            final(self).low.same_root(old(self).low),
            final(self).high == old(self).high,
            final(self).compute_scratch == old(self).compute_scratch,
            ({
                let f0 = old(frames)@;
                let first = start as int / 0x4000;
                let pool = pool_of(start as int);
                if !render::Parameters::private_fits(start, end) {
                    &&& out == Err::<OperandPool, Error>(Error::EINVAL)
                    &&& *final(self) == *old(self)
                    &&& *final(mem) == *old(mem)
                    &&& final(frames)@ == f0
                } else {
                    let scratch = scratch_range(start as int, end);
                    let conflict = old(self).first_conflict(
                        *old(mem),
                        start as int,
                        0,
                        PRIVATE_PAGES as int,
                    );
                    let untouched = final(self).same_but_walked(
                        (AddressSpace { render_scratch: scratch, ..*old(self) }),
                    ) && final(mem).map() == old(mem).map() && final(mem).free@ == old(mem).free@
                        && final(frames)@ == f0;
                    &&& final(self).render_scratch == scratch
                    &&& forall|q: int|
                        tables::in_tree(q) && !(first <= q < first + PRIVATE_PAGES) && !aliased_before(
                            pool,
                            40,
                            q,
                        ) ==> #[trigger] final(self).entry(*final(mem), q) == old(self).entry(
                            *old(mem),
                            q,
                        )
                    &&& if scratch.start > scratch.end {
                        out == Err::<OperandPool, Error>(Error::ENOMEM) && untouched
                    } else if conflict is Some {
                        out == Err::<OperandPool, Error>(conflict->0) && untouched
                    } else if f0.len() < PRIVATE_PAGES {
                        &&& out == Err::<OperandPool, Error>(Error::ENOMEM)
                        &&& exists|k: int|
                            #[trigger] old(self).partly_backed(
                                *old(mem),
                                f0,
                                *final(self),
                                *final(mem),
                                final(frames)@,
                                start as int,
                                prot::prot_gpu_shared_rw(),
                                k,
                            )
                    } else {
                        match out {
                            Ok(p) => {
                                &&& p == pool
                                &&& final(mem).free@.len() + 0x8000 >= old(mem).free@.len()
                                &&& !alias_blocked(*old(self), *old(mem), start as int, pool, 40)
                                &&& final(frames)@ == f0.take(f0.len() - PRIVATE_PAGES)
                                &&& final(self).pages@ == space::pages_with(
                                    old(self).pages@,
                                    start as int,
                                    f0,
                                    PRIVATE_PAGES as int,
                                )
                                &&& forall|q: int|
                                    first <= q < first + PRIVATE_PAGES ==> #[trigger] final(self).entry(
                                        *final(mem),
                                        q,
                                    ) == f0[f0.len() - 1 - (q - first)] | Self::bits(
                                        prot::prot_gpu_shared_rw(),
                                    )
                                &&& aliased(*final(self), *final(mem), start as int, pool, 40)
                            },
                            Err(e) => {
                                ||| {
                                    &&& e == Error::ENOMEM
                                    &&& old(mem).free@.len() < 0x8000
                                    &&& exists|k: int|
                                        k <= PRIVATE_PAGES && #[trigger] old(self).partly_backed(
                                            *old(mem),
                                            f0,
                                            *final(self),
                                            *final(mem),
                                            final(frames)@,
                                            start as int,
                                            prot::prot_gpu_shared_rw(),
                                            k,
                                        )
                                }
                                ||| {
                                    &&& final(frames)@ == f0.take(f0.len() - PRIVATE_PAGES)
                                    &&& final(self).pages@ == space::pages_with(
                                        old(self).pages@,
                                        start as int,
                                        f0,
                                        PRIVATE_PAGES as int,
                                    )
                                    &&& forall|q: int|
                                        first <= q < first + PRIVATE_PAGES ==> #[trigger] final(self).entry(*final(mem), q) == f0[f0.len() - 1 - (q
                                            - first)] | Self::bits(prot::prot_gpu_shared_rw())
                                    &&& exists|i: int|
                                        {
                                            &&& #[trigger] aliased_upto(
                                                *old(self),
                                                *old(mem),
                                                *final(self),
                                                *final(mem),
                                                start as int,
                                                pool,
                                                i,
                                            )
                                            &&& if e == Error::EEXIST {
                                                alias_blocked(
                                                    *old(self),
                                                    *old(mem),
                                                    start as int,
                                                    pool,
                                                    i + 1,
                                                )
                                            } else {
                                                e == Error::ENOMEM && old(mem).free@.len() < 0x8000
                                            }
                                        }
                                }
                            },
                        }
                    }
                }
            }),
    {
        let mut params: render::Parameters = render::Parameters::default();
        match params.set_private(start, end) {
            None => {
                return Err(Error::EINVAL);
            },
            Some(_) => {},
        }
        let pool: OperandPool = match OperandPool::new(start, end) {
            None => {
                return Err(Error::EINVAL);
            },
            Some(pool) => pool,
        };
        let growth: u64 = match pool.growth_end() {
            None => {
                return Err(Error::EINVAL);
            },
            Some(growth) => growth,
        };
        let top: u64 = operands::CONTEXT_BASE + 0x1_0000_0000;
        let limit: u64 = if end < top {
            end
        } else {
            top
        };
        self.render_scratch = growth..limit;
        assert(self.low.tree(*mem) == old(self).low.tree(*old(mem)));
        assert(self.high.tree(*mem) == old(self).high.tree(*old(mem)));
        proof {
            assert(frames@.take(frames@.len() as int) =~= frames@);
            assert(space::pages_with(self.pages@, start as int, frames@, 0) == self.pages@);
            assert forall|q: int| tables::in_tree(q) implies #[trigger] self.entry(*mem, q) == old(
                self,
            ).entry(*old(mem), q) by {}
        }
        if growth > limit {
            return Err(Error::ENOMEM);
        }
        let ghost s0 = *self;
        let ghost m0 = *mem;
        let ghost f0 = frames@;
        let ghost first = start as int / 0x4000;
        proof {
            old(self).lemma_conflicts_same(s0, m0, start as int, 0, PRIVATE_PAGES as int);
        }
        match self.alloc_low(
            mem,
            frames,
            start,
            operands::PRIVATE_SIZE as u64,
            prot::prot_gpu_shared_rw(),
        ) {
            Err(e) => {
                proof {
                    assert forall|q: int| tables::in_tree(q) implies #[trigger] s0.entry(m0, q) == old(
                        self,
                    ).entry(*old(mem), q) by {}
                    if s0.first_conflict(m0, start as int, 0, PRIVATE_PAGES as int) is None {
                        let k = choose|k: int|
                            0 <= k <= PRIVATE_PAGES && #[trigger] s0.partly_backed(
                                m0,
                                f0,
                                *self,
                                *mem,
                                frames@,
                                start as int,
                                prot::prot_gpu_shared_rw(),
                                k,
                            );
                        assert(old(self).partly_backed(
                            *old(mem),
                            f0,
                            *self,
                            *mem,
                            frames@,
                            start as int,
                            prot::prot_gpu_shared_rw(),
                            k,
                        ));
                    }
                }
                return Err(e);
            },
            Ok(_) => {},
        }
        let ghost m1 = *mem;
        let ghost bits = Self::bits(prot::prot_gpu_shared_rw());
        proof {
            lemma_private_shared(*self, m1, f0, first, bits);
            assert(pool == pool_of(start as int));
        }
        let aliases: [(u64, u64, usize); 40] = operands::private_aliases(&pool);
        let mut i: usize = 0;
        while i < 40
            invariant
                i <= 40,
                s0.wf(m0),
                space::frames_ok(f0),
                first == start as int / 0x4000,
                start % 0x4000 == 0,
                render::Parameters::private_fits(start, end),
                pool == pool_of(start as int),
                bits == Self::bits(prot::prot_gpu_shared_rw()),
                PRIVATE_PAGES <= f0.len(),
                forall|k: int| 0 <= k < 40 ==> #[trigger] aliases@[k] == operands::alias_of(pool, k),
                mem.free@.len() + 2 * (PRIVATE_PAGES + 256 * i) >= m0.free@.len(),
                walk::framed(s0.low.tree(m0), self.low.tree(*mem)),
                walk::extends(s0.low.tree(m0), self.low.tree(*mem)),
                self.same_roots(s0),
                self.wf(*mem),
                self.render_scratch == scratch_range(start as int, end),
                s0.render_scratch == self.render_scratch,
                s0.render_scratch.start <= s0.render_scratch.end,
                *old(self) == (AddressSpace { render_scratch: old(self).render_scratch, ..s0 }),
                m0 == *old(mem),
                f0 == old(frames)@,
                frames@ == f0.take(f0.len() - PRIVATE_PAGES),
                self.pages@ == space::pages_with(
                    s0.pages@,
                    start as int,
                    f0,
                    PRIVATE_PAGES as int,
                ),
                forall|q: int|
                    first <= q < first + PRIVATE_PAGES ==> #[trigger] self.entry(*mem, q) == f0[f0.len()
                        - 1 - (q - first)] | bits,
                forall|q: int|
                    first <= q < first + PRIVATE_PAGES ==> is_shared(#[trigger] self.entry(*mem, q)),
                aliased(*self, *mem, start as int, pool, i as int),
                forall|q: int|
                    tables::in_tree(q) && tables::is_valid(#[trigger] self.entry(*mem, q))
                        ==> tables::is_valid(s0.entry(m0, q)) || first <= q < first + PRIVATE_PAGES
                        || aliased_before(pool, i as int, q),
                forall|q: int|
                    tables::in_tree(q) && !(first <= q < first + PRIVATE_PAGES) && !aliased_before(
                        pool,
                        i as int,
                        q,
                    ) ==> #[trigger] self.entry(*mem, q) == s0.entry(m0, q),
                old(self).first_conflict(*old(mem), start as int, 0, PRIVATE_PAGES as int) is None,
                !alias_blocked(*old(self), m0, start as int, pool, i as int),
            decreases 40 - i,
        {
            let ghost s2 = *self;
            let ghost m2 = *mem;
            let (alias, offset, size): (u64, u64, usize) = aliases[i];
            proof {
                lemma_alias_shape(start as int, i as int);
            }
            let n: u64 = size as u64 / 0x4000;
            let mapped = self.map_alias(mem, alias, start + offset, n);
            proof {
                walk::lemma_framed_trans(s0.low.tree(m0), s2.low.tree(m2), self.low.tree(*mem));
                walk::lemma_extends_trans(s0.low.tree(m0), s2.low.tree(m2), self.low.tree(*mem));
                lemma_alias_step(
                    s0,
                    m0,
                    s2,
                    m2,
                    *self,
                    *mem,
                    start as int,
                    pool,
                    i as int,
                    first,
                    mapped,
                );
            }
            match mapped {
                Err(e) => {
                    proof {
                        assert forall|q: int|
                            tables::in_tree(q) && !(first <= q < first + PRIVATE_PAGES)
                                && !aliased_before(pool, 40, q) implies #[trigger] self.entry(*mem, q)
                            == old(self).entry(*old(mem), q) by {
                            assert(!in_alias(pool, i as int, q));
                            if aliased_before(pool, i as int, q) {
                                let j = choose|j: int| 0 <= j < i && #[trigger] in_alias(pool, j, q);
                                assert(in_alias(pool, j, q));
                            }
                            assert(s2.entry(m2, q) == s0.entry(m0, q));
                            assert(s0.entry(m0, q) == old(self).entry(*old(mem), q));
                        }
                        assert forall|q: int|
                            tables::in_tree(q) && !(first <= q < first + PRIVATE_PAGES)
                                && !aliased_before(pool, i + 1, q) implies #[trigger] self.entry(*mem, q)
                            == old(self).entry(*old(mem), q) by {
                            assert(!in_alias(pool, i as int, q));
                            if aliased_before(pool, i as int, q) {
                                let j = choose|j: int| 0 <= j < i && #[trigger] in_alias(pool, j, q);
                                assert(in_alias(pool, j, q));
                            }
                            assert(s2.entry(m2, q) == s0.entry(m0, q));
                            assert(s0.entry(m0, q) == old(self).entry(*old(mem), q));
                        }
                        assert(aliased_upto(
                            *old(self),
                            *old(mem),
                            *self,
                            *mem,
                            start as int,
                            pool,
                            i as int,
                        ));
                        if e == Error::EEXIST {
                            let q = choose|q: int|
                                alias as int / 0x4000 <= q < alias as int / 0x4000 + n
                                    && tables::is_valid(#[trigger] s2.entry(m2, q));
                            assert(in_alias(pool, i as int, q));
                            assert(tables::in_tree(q));
                            assert(s0.entry(m0, q) == old(self).entry(*old(mem), q));
                            lemma_alias_free(
                                *old(self),
                                m0,
                                s2,
                                m2,
                                start as int,
                                pool,
                                i as int,
                                q,
                            );
                            assert(alias_blocked(*old(self), m0, start as int, pool, i + 1));
                        }
                    }
                    return Err(e);
                },
                Ok(_) => {},
            }
            proof {
                assert forall|q: int|
                    tables::in_tree(q) && !(first <= q < first + PRIVATE_PAGES) && !aliased_before(
                        pool,
                        i + 1,
                        q,
                    ) implies #[trigger] self.entry(*mem, q) == s0.entry(m0, q) by {
                    assert(!in_alias(pool, i as int, q));
                    if aliased_before(pool, i as int, q) {
                        let j = choose|j: int| 0 <= j < i && #[trigger] in_alias(pool, j, q);
                        assert(in_alias(pool, j, q));
                    }
                    assert(s2.entry(m2, q) == s0.entry(m0, q));
                }
                assert forall|j: int, q: int|
                    0 <= j < i + 1 && #[trigger] in_alias(pool, j, q) implies !alias_taken(
                    *old(self),
                    m0,
                    start as int,
                    pool,
                    j,
                    q,
                ) by {
                    if j == i {
                        assert(tables::in_tree(q));
                        assert(s0.entry(m0, q) == old(self).entry(*old(mem), q));
                        assert(!tables::is_valid(s2.entry(m2, q)));
                        lemma_alias_free(
                            *old(self),
                            m0,
                            s2,
                            m2,
                            start as int,
                            pool,
                            i as int,
                            q,
                        );
                    } else {
                        assert(!alias_blocked(*old(self), m0, start as int, pool, i as int));
                    }
                }
            }
            i += 1;
        }
        proof {
            assert forall|q: int|
                tables::in_tree(q) && !(first <= q < first + PRIVATE_PAGES) && !aliased_before(
                    pool,
                    40,
                    q,
                ) implies #[trigger] self.entry(*mem, q) == old(self).entry(*old(mem), q) by {
                assert(s0.entry(m0, q) == old(self).entry(*old(mem), q));
            }
        }
        Ok(pool)
    }

    /// Conflicts do not depend on the scratch ranges.
    proof fn lemma_conflicts_same(
        self,
        other: AddressSpace,
        mem: TableMemory,
        va: int,
        k: int,
        n: int,
    )
        requires
            other == (AddressSpace { render_scratch: other.render_scratch, ..self }),
        ensures
            other.first_conflict(mem, va, k, n) == self.first_conflict(mem, va, k, n),
        decreases n - k,
    {
        if k < n {
            assert(other.entry(mem, (va + k * 0x4000) / 0x4000) == self.entry(
                mem,
                (va + k * 0x4000) / 0x4000,
            ));
            self.lemma_conflicts_same(other, mem, va, k + 1, n);
        }
    }

    /// A read-only walk changes only what is recorded.
    proof fn lemma_walked(self, s0: AddressSpace, m0: TableMemory, m: TableMemory)
        requires
            s0.wf(m0),
            self.low.wf(m),
            self.low.same_root(s0.low),
            self.high == s0.high,
            m.map() == m0.map(),
            m.free@ == m0.free@,
        ensures
            self.wf(m),
            self.low.tree(m) == s0.low.tree(m0),
            forall|q: int| #[trigger] self.entry(m, q) == s0.entry(m0, q),
    {
        space::lemma_high_same(self.high, m0, m);
        assert(self.low.tree(m) == s0.low.tree(m0));
        assert(self.high.tree(m) == s0.high.tree(m0));
    }
}

/// Number of pages of the private storage.
pub const PRIVATE_PAGES: u64 = 0xd75;

/// The operand pool behind the private storage of a carveout.
pub open spec fn pool_of(start: int) -> OperandPool {
    let (directory, table, buffer) = OperandPool::at_start(start);
    OperandPool { directory: directory as u64, table: table as u64, buffer: buffer as u64 }
}

/// The range that renders take their scratch from: behind tiler growth, within reach of the context
/// base.
pub open spec fn scratch_range(start: int, end: u64) -> Range<u64> {
    let top = operands::CONTEXT_BASE + 0x1_0000_0000;
    Range {
        start: (operands::round_block(pool_of(start).end_of()) + 0x3200000) as u64,
        end: if end < top {
            end
        } else {
            top as u64
        },
    }
}

/// Whether a page belongs to an alias.
pub open spec fn in_alias(pool: OperandPool, i: int, q: int) -> bool {
    let a = operands::alias_of(pool, i);
    a.0 as int / 0x4000 <= q < a.0 as int / 0x4000 + a.2 as int / 0x4000
}

/// Whether a page belongs to one of the first aliases.
pub open spec fn aliased_before(pool: OperandPool, i: int, q: int) -> bool {
    exists|j: int| 0 <= j < i && #[trigger] in_alias(pool, j, q)
}

/// The page of the private storage behind a page of an alias.
pub open spec fn behind(start: int, pool: OperandPool, i: int, q: int) -> int {
    let a = operands::alias_of(pool, i);
    (start + a.1) / 0x4000 + (q - a.0 as int / 0x4000)
}

/// Whether the first aliases map what the private storage maps.
pub open spec fn aliased(s: AddressSpace, mem: TableMemory, start: int, pool: OperandPool, n: int) -> bool {
    forall|i: int, q: int|
        0 <= i < n && #[trigger] in_alias(pool, i, q) ==> s.entry(mem, q) == s.entry(
            mem,
            behind(start, pool, i, q),
        ) && tables::in_tree(q)
}

/// Whether one of the first aliases falls on a page that is in use by then: mapped before, part of the
/// private storage, or taken by an alias before it.
pub open spec fn alias_blocked(
    s: AddressSpace,
    mem: TableMemory,
    start: int,
    pool: OperandPool,
    n: int,
) -> bool {
    exists|i: int, q: int|
        0 <= i < n && #[trigger] in_alias(pool, i, q) && alias_taken(s, mem, start, pool, i, q)
}

/// Whether aliasing stopped at an alias: those before it are mapped, and nothing blocked them. Pages behind
/// it are as they were.
pub open spec fn aliased_upto(
    before: AddressSpace,
    m0: TableMemory,
    s: AddressSpace,
    mem: TableMemory,
    start: int,
    pool: OperandPool,
    i: int,
) -> bool {
    &&& 0 <= i < 40
    &&& !alias_blocked(before, m0, start, pool, i)
    &&& aliased(s, mem, start, pool, i)
    &&& forall|q: int|
        tables::in_tree(q) && !(start / 0x4000 <= q < start / 0x4000 + PRIVATE_PAGES)
            && !aliased_before(pool, i + 1, q) ==> #[trigger] s.entry(mem, q) == before.entry(m0, q)
}

/// Whether a page is in use by the time an alias is mapped.
pub open spec fn alias_taken(
    s: AddressSpace,
    mem: TableMemory,
    start: int,
    pool: OperandPool,
    i: int,
    q: int,
) -> bool {
    ||| tables::is_valid(s.entry(mem, q))
    ||| start / 0x4000 <= q < start / 0x4000 + PRIVATE_PAGES
    ||| aliased_before(pool, i, q)
}

/// Where the private storage lies behind the fixed aliases, no alias falls on another one or on the
/// storage itself: only a page that was mapped before can block one.
pub proof fn lemma_aliases_apart(start: int, i: int, q: int)
    requires
        0 <= i < 40,
        start % 0x4000 == 0,
        0x10_0027_4000 <= start,
        start + operands::PRIVATE_SIZE <= operands::CONTEXT_BASE + 0x1_0000_0000,
        in_alias(pool_of(start), i, q),
    ensures
        !(start / 0x4000 <= q < start / 0x4000 + PRIVATE_PAGES),
        !aliased_before(pool_of(start), i, q),
{
    let pool = pool_of(start);
    lemma_alias_shape(start, i);
    if aliased_before(pool, i, q) {
        let j = choose|j: int| 0 <= j < i && #[trigger] in_alias(pool, j, q);
        lemma_alias_shape(start, j);
        let a = operands::alias_of(pool, i);
        let b = operands::alias_of(pool, j);
        assert(a.0 + a.2 <= b.0 || b.0 + b.2 <= a.0);
    }
}

/// An alias finds its pages free exactly where nothing blocks it.
proof fn lemma_alias_free(
    before: AddressSpace,
    m0: TableMemory,
    s2: AddressSpace,
    m2: TableMemory,
    start: int,
    pool: OperandPool,
    i: int,
    q: int,
)
    requires
        0 <= i < 40,
        start % 0x4000 == 0,
        operands::CONTEXT_BASE <= start,
        start + operands::PRIVATE_SIZE <= operands::CONTEXT_BASE + 0x1_0000_0000,
        pool == pool_of(start),
        in_alias(pool, i, q),
        forall|r: int|
            start / 0x4000 <= r < start / 0x4000 + PRIVATE_PAGES ==> is_shared(
                #[trigger] s2.entry(m2, r),
            ),
        aliased(s2, m2, start, pool, i),
        !(start / 0x4000 <= q < start / 0x4000 + PRIVATE_PAGES) && !aliased_before(pool, i, q)
            ==> s2.entry(m2, q) == before.entry(m0, q),
    ensures
        tables::is_valid(s2.entry(m2, q)) == alias_taken(before, m0, start, pool, i, q),
{
    if start / 0x4000 <= q < start / 0x4000 + PRIVATE_PAGES {
        assert(is_shared(s2.entry(m2, q)));
        lemma_shared(s2.entry(m2, q));
    } else if aliased_before(pool, i, q) {
        let j = choose|j: int| 0 <= j < i && #[trigger] in_alias(pool, j, q);
        lemma_alias_shape(start, j);
        let b = behind(start, pool, j, q);
        assert(s2.entry(m2, q) == s2.entry(m2, b));
        assert(start / 0x4000 <= b < start / 0x4000 + PRIVATE_PAGES);
        assert(is_shared(s2.entry(m2, b)));
        lemma_shared(s2.entry(m2, b));
    }
}

/// The aliases of a pool are page ranges of the private storage.
proof fn lemma_alias_shape(start: int, i: int)
    requires
        0 <= i < 40,
        start % 0x4000 == 0,
        operands::CONTEXT_BASE <= start,
        start + operands::PRIVATE_SIZE <= operands::CONTEXT_BASE + 0x1_0000_0000,
    ensures
        ({
            let a = operands::alias_of(pool_of(start), i);
            &&& a.0 % 0x4000 == 0
            &&& a.1 % 0x4000 == 0
            &&& a.2 % 0x4000 == 0
            &&& 0 < a.2 <= 0x400000
            &&& a.0 + a.2 <= 0x20_0000_0000
            &&& a.1 + a.2 <= operands::PRIVATE_SIZE
            &&& start + a.1 + a.2 <= 0x400_0000_0000
        }),
{
}

/// Backed private pages are shared mappings.
proof fn lemma_private_shared(s: AddressSpace, m: TableMemory, f0: Seq<u64>, first: int, bits: u64)
    requires
        space::frames_ok(f0),
        PRIVATE_PAGES <= f0.len(),
        bits == AddressSpace::bits(prot::prot_gpu_shared_rw()),
        0 <= first,
        first + PRIVATE_PAGES <= tables::PAGES,
        forall|q: int|
            tables::in_tree(q) && first <= q < first + PRIVATE_PAGES ==> #[trigger] s.entry(m, q)
                == f0[f0.len() - 1 - (q - first)] | bits,
    ensures
        forall|q: int|
            first <= q < first + PRIVATE_PAGES ==> #[trigger] s.entry(m, q) == f0[f0.len() - 1 - (q
                - first)] | bits,
        forall|q: int| first <= q < first + PRIVATE_PAGES ==> is_shared(#[trigger] s.entry(m, q)),
{
    assert forall|q: int| first <= q < first + PRIVATE_PAGES implies is_shared(
        #[trigger] s.entry(m, q),
    ) && s.entry(m, q) == f0[f0.len() - 1 - (q - first)] | bits by {
        let frame = f0[f0.len() - 1 - (q - first)];
        assert(tables::in_tree(q));
        assert(tables::frame_of(frame, 0x3ff_ffff_ffff) == frame);
        assert(s.entry(m, q) == (frame | bits));
    }
}

/// Mapping one more alias keeps the private storage and the aliases before it.
proof fn lemma_alias_step(
    s0: AddressSpace,
    m0: TableMemory,
    s2: AddressSpace,
    m2: TableMemory,
    s: AddressSpace,
    m: TableMemory,
    start: int,
    pool: OperandPool,
    i: int,
    first: int,
    mapped: Result<(), Error>,
)
    requires
        0 <= i < 40,
        start % 0x4000 == 0,
        operands::CONTEXT_BASE <= start,
        start + operands::PRIVATE_SIZE <= operands::CONTEXT_BASE + 0x1_0000_0000,
        pool == pool_of(start),
        first == start / 0x4000,
        forall|q: int| first <= q < first + PRIVATE_PAGES ==> is_shared(#[trigger] s2.entry(m2, q)),
        aliased(s2, m2, start, pool, i),
        forall|q: int|
            tables::in_tree(q) && tables::is_valid(#[trigger] s2.entry(m2, q)) ==> tables::is_valid(
                s0.entry(m0, q),
            ) || first <= q < first + PRIVATE_PAGES || aliased_before(pool, i, q),
        forall|q: int|
            tables::in_tree(q) && (tables::is_valid(s2.entry(m2, q)) || !in_alias(pool, i, q))
                ==> #[trigger] s.entry(m, q) == s2.entry(m2, q),
        mapped is Ok ==> forall|q: int|
            in_alias(pool, i, q) ==> #[trigger] s.entry(m, q) == s2.entry(
                m2,
                behind(start, pool, i, q),
            ),
    ensures
        forall|q: int|
            first <= q < first + PRIVATE_PAGES ==> #[trigger] s.entry(m, q) == s2.entry(m2, q),
        aliased(s, m, start, pool, i),
        mapped is Ok ==> aliased(s, m, start, pool, i + 1),
        mapped is Ok ==> forall|q: int|
            tables::in_tree(q) && tables::is_valid(#[trigger] s.entry(m, q)) ==> tables::is_valid(
                s0.entry(m0, q),
            ) || first <= q < first + PRIVATE_PAGES || aliased_before(pool, i + 1, q),
{
    assert forall|q: int| first <= q < first + PRIVATE_PAGES implies #[trigger] s.entry(m, q)
        == s2.entry(m2, q) by {
        assert(is_shared(s2.entry(m2, q)));
        lemma_shared(s2.entry(m2, q));
        assert(tables::in_tree(q));
    }
    assert forall|j: int, q: int| 0 <= j < i && #[trigger] in_alias(pool, j, q) implies s.entry(m, q)
        == s.entry(m, behind(start, pool, j, q)) && tables::in_tree(q) by {
        lemma_alias_shape(start, j);
        let b = behind(start, pool, j, q);
        assert(first <= b < first + PRIVATE_PAGES);
        assert(s.entry(m, b) == s2.entry(m2, b));
        assert(is_shared(s2.entry(m2, b)));
        lemma_shared(s2.entry(m2, b));
        assert(s2.entry(m2, q) == s2.entry(m2, b));
    }
    if mapped is Ok {
        assert forall|j: int, q: int| 0 <= j < i + 1 && #[trigger] in_alias(pool, j, q) implies s.entry(
            m,
            q,
        ) == s.entry(m, behind(start, pool, j, q)) && tables::in_tree(q) by {
            lemma_alias_shape(start, j);
            let b = behind(start, pool, j, q);
            assert(first <= b < first + PRIVATE_PAGES);
            assert(s.entry(m, b) == s2.entry(m2, b));
            assert(is_shared(s2.entry(m2, b)));
            lemma_shared(s2.entry(m2, b));
            assert(tables::in_tree(q));
            if j < i {
                assert(s2.entry(m2, q) == s2.entry(m2, b));
                assert(tables::is_valid(s2.entry(m2, q)));
            }
        }
        assert forall|q: int|
            tables::in_tree(q) && tables::is_valid(#[trigger] s.entry(m, q)) implies tables::is_valid(
            s0.entry(m0, q),
        ) || first <= q < first + PRIVATE_PAGES || aliased_before(pool, i + 1, q) by {
            if in_alias(pool, i, q) {
                assert(aliased_before(pool, i + 1, q));
            } else {
                assert(s.entry(m, q) == s2.entry(m2, q));
                if aliased_before(pool, i, q) {
                    let j = choose|j: int| 0 <= j < i && #[trigger] in_alias(pool, j, q);
                    assert(in_alias(pool, j, q));
                }
            }
        }
    }
}

/// The frame behind a page of new tiler blocks is found again from the page.
proof fn lemma_block_page(base: int, count: int, k: int)
    requires
        0 <= base,
        base % 0x8000 == 0,
        0 <= k < 8 * count,
    ensures
        block_frame(base, count, block_page(base, k) / 0x4000) == Some(k),
        block_page(base, k) % 0x4000 == 0,
{
}

/// Different pages of new tiler blocks have different frames.
proof fn lemma_block_unique(base: int, count: int, p: int, q: int)
    requires
        block_frame(base, count, p) is Some,
        block_frame(base, count, q) is Some,
        p != q,
    ensures
        block_frame(base, count, p) != block_frame(base, count, q),
{
}

} // verus!
