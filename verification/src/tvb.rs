//! Context-owned tiled vertex buffers and their retained growth backing.
use crate::bytes;
use crate::bytes::{encode, w32, w64, Field};
use crate::error::Error;
use crate::fw;
use crate::operands;
use crate::prot;
use crate::prot::Prot;
use crate::render::Addresses;
use vstd::prelude::*;

verus! {

/// The capacity that the buffer-manager metadata advertises. The default budget is one third of it.
pub const MAX_BLOCKS: u32 = 6579;

/// Address of the client's view of the page list.
pub const PAGE_LIST_ALIAS: u64 = 0x10_0025_8000;

/// Address of the firmware's table of parameter buffers.
pub const PARAMETER_BUFFERS: u64 = 0xffff_fc20_0012_8000;

/// A tiled vertex buffer of one context.
#[derive(Clone, Copy, Debug)]
pub struct Tvb {
    pub root: u64,
    pub addresses: Addresses,
    pub initialized: bool,
    pub blocks: u32,
    pub counter: u32,
    pub submissions: u32,
    pub refused: bool,
    pub scenes: [bool; 36],
}

/// A device-owned range with its access rights.
#[derive(Clone, Copy, Debug, PartialEq, Eq, Structural)]
pub struct Region {
    pub address: u64,
    pub size: u64,
    pub prot: Prot,
}

/// What the buffer manager shows when the firmware asks for growth.
#[derive(Clone, Copy, Debug, PartialEq, Eq)]
pub struct Observed {
    /// The client root that the request belongs to.
    pub root: u64,
    /// Blocks that the firmware has taken over.
    pub mirror: u32,
    /// The two published block counts.
    pub counts: (u32, u32),
    /// The block list and the block control that the manager names.
    pub block_list: u64,
    pub block_control: u64,
    /// The block size that the manager names.
    pub block_size: u32,
    /// The capacity of the manager.
    pub capacity: u32,
}

/// The placement of a buffer manager in its namespace.
pub open spec fn placed(base: int, slot: u64) -> Addresses {
    Addresses {
        buffer_manager_slot: slot,
        buffer_manager: base as u64,
        buffer_thing: (base + 0x4080) as u64,
        buffer_manager_block_control: (base + 0x8000) as u64,
        buffer_manager_scene_list: (base + 0xc000) as u64,
        buffer_manager_counter: (base + 0x10000) as u64,
        buffer_manager_block_list: (base + 0x14000) as u64,
        buffer_manager_page_list: (base + 0x24000) as u64,
        ..Addresses::initial()
    }
}

/// The growth that a request leads to: three times the blocks, within the limit, and never fewer.
pub open spec fn target(blocks: int, limit: int) -> int {
    let capped = if 3 * blocks < limit {
        3 * blocks
    } else {
        limit
    };
    if capped > blocks {
        capped
    } else {
        blocks
    }
}

/// The bound on the number of blocks.
pub open spec fn bound(limit: u32) -> u32 {
    if limit < MAX_BLOCKS {
        limit
    } else {
        MAX_BLOCKS
    }
}

/// The number by which the firmware knows a block.
pub open spec fn block_id(base: int, index: int) -> int {
    (base + index * 0x28000 - 0x10_0000_0000) / 0x8000
}

/// The block list entries of new blocks.
pub open spec fn block_entries(base: int, count: int) -> Seq<Field> {
    Seq::new(count as nat, |i: int| w64((8 * i) as usize, block_id(base, i) as u64))
}

impl Tvb {
    /// The published block count stays within the lists that hold it.
    pub open spec fn wf(self) -> bool {
        self.blocks <= 7168
    }

    /// Places a buffer manager in its namespace.
    pub fn place(base: u64, slot: u64) -> (out: Addresses)
        requires
            base + 0x40000 <= u64::MAX,
        ensures
            out == placed(base as int, slot),
            base % 0x4000 == 0 ==> out.links_ok(),
    {
        let mut a: Addresses = Addresses::bootstrap();
        a.buffer_manager_slot = slot;
        a.buffer_manager = base;
        a.buffer_thing = base + 0x4080;
        a.buffer_manager_block_control = base + 0x8000;
        a.buffer_manager_scene_list = base + 0xc000;
        a.buffer_manager_counter = base + 0x10000;
        a.buffer_manager_block_list = base + 0x14000;
        a.buffer_manager_page_list = base + 0x24000;
        a
    }

    /// The ranges of a buffer manager. The host advances the submission count while earlier renders
    /// are active, and the firmware must observe it without cache maintenance, so that page alone is
    /// shared.
    pub fn regions(base: u64) -> (out: [Region; 3])
        requires
            base + 0x40000 <= u64::MAX,
        ensures
            out@[0] == (Region { address: base, size: 0x10000, prot: prot::prot_fw_priv_rw() }),
            out@[1] == (Region {
                address: (base + 0x10000) as u64,
                size: 0x4000,
                prot: prot::prot_fw_shared_rw(),
            }),
            out@[2] == (Region {
                address: (base + 0x14000) as u64,
                size: 0x2c000,
                prot: prot::prot_fw_priv_rw(),
            }),
    {
        [
            Region { address: base, size: 0x10000, prot: prot::prot_fw_priv_rw() },
            Region { address: base + 0x10000, size: 0x4000, prot: prot::prot_fw_shared_rw() },
            Region { address: base + 0x14000, size: 0x2c000, prot: prot::prot_fw_priv_rw() },
        ]
    }

    /// The pages that firmware and accelerator share: the client's view, and the page of the list
    /// behind it.
    pub fn aliases(base: u64) -> (out: [(u64, u64); 7])
        requires
            base + 0x40000 <= u64::MAX,
        ensures
            forall|i: int|
                0 <= i < 7 ==> #[trigger] out@[i] == (
                    (PAGE_LIST_ALIAS + i * 0x4000) as u64,
                    (base + 0x24000 + i * 0x4000) as u64,
                ),
    {
        [
            (PAGE_LIST_ALIAS, base + 0x24000),
            (PAGE_LIST_ALIAS + 0x4000, base + 0x28000),
            (PAGE_LIST_ALIAS + 0x8000, base + 0x2c000),
            (PAGE_LIST_ALIAS + 0xc000, base + 0x30000),
            (PAGE_LIST_ALIAS + 0x10000, base + 0x34000),
            (PAGE_LIST_ALIAS + 0x14000, base + 0x38000),
            (PAGE_LIST_ALIAS + 0x18000, base + 0x3c000),
        ]
    }

    /// The parameter-buffer descriptor of a slot, and where it stands.
    pub fn descriptor(slot: u64) -> (out: (u64, [u8; 16]))
        requires
            PARAMETER_BUFFERS + slot * 16 <= u64::MAX,
        ensures
            out.0 == PARAMETER_BUFFERS + slot * 16,
            out.1@ == bytes::image(16, seq![w32(0, 0x25800), w32(4, 44)]),
    {
        let fields = [w32(0, 0x25800), w32(4, 44)];
        assert(fields@ =~= seq![w32(0, 0x25800), w32(4, 44)]);
        let bytes: [u8; 16] = match fw::parameter_buffer_descriptor(PAGE_LIST_ALIAS, 44) {
            Some(bytes) => bytes,
            None => encode::<16>(&fields),
        };
        (PARAMETER_BUFFERS + slot * 16, bytes)
    }

    /// A buffer of a client root, with the eleven blocks that it starts with.
    pub fn new(root: u64, base: u64, slot: u64) -> (out: Self)
        requires
            base + 0x40000 <= u64::MAX,
        ensures
            out.wf(),
            out.root == root,
            out.addresses == placed(base as int, slot),
            !out.initialized,
            out.blocks == 11,
            out.counter == 0,
            out.submissions == 0,
            !out.refused,
            forall|i: int| 0 <= i < 36 ==> !(#[trigger] out.scenes@[i]),
    {
        Tvb {
            root,
            addresses: Self::place(base, slot),
            initialized: false,
            blocks: 11,
            counter: 0,
            submissions: 0,
            refused: false,
            scenes: [false; 36],
        }
    }

    /// The submission count to publish before the next render, renders of other queues that share
    /// the pool among them, and where it stands.
    pub fn next_count(&self) -> (out: (u64, u32))
        ensures
            out.0 == self.addresses.buffer_manager_counter,
            out.1 == (self.submissions + 1) % 0x1_0000_0000,
    {
        (self.addresses.buffer_manager_counter, self.submissions.wrapping_add(1))
    }

    /// Counts a render whose count has been published.
    pub fn increment(&mut self)
        ensures
            *final(self) == (Tvb {
                submissions: ((old(self).submissions + 1) % 0x1_0000_0000) as u32,
                ..*old(self)
            }),
    {
        self.submissions = self.submissions.wrapping_add(1);
    }

    /// Leases the lowest free scene record until both stages and their event replies have retired.
    pub fn reserve_scene(&mut self) -> (out: Result<u32, Error>)
        ensures
            match out {
                Ok(index) => {
                    &&& index < 36
                    &&& !old(self).scenes@[index as int]
                    &&& forall|j: int| 0 <= j < index ==> #[trigger] old(self).scenes@[j]
                    &&& final(self).scenes@ == old(self).scenes@.update(index as int, true)
                    &&& *final(self) == (Tvb { scenes: final(self).scenes, ..*old(self) })
                },
                Err(e) => {
                    &&& e == Error::EBUSY
                    &&& forall|j: int| 0 <= j < 36 ==> #[trigger] old(self).scenes@[j]
                    &&& *final(self) == *old(self)
                },
            },
    {
        let mut index: usize = 0;
        while index < 36
            invariant
                index <= 36,
                *self == *old(self),
                forall|j: int| 0 <= j < index ==> #[trigger] self.scenes@[j],
            decreases 36 - index,
        {
            if !self.scenes[index] {
                let mut scenes: [bool; 36] = self.scenes;
                scenes[index] = true;
                self.scenes = scenes;
                return Ok(index as u32);
            }
            index += 1;
        }
        Err(Error::EBUSY)
    }

    /// Gives a scene record back.
    pub fn release_scene(&mut self, index: u32)
        requires
            index < 36,
        ensures
            final(self).scenes@ == old(self).scenes@.update(index as int, false),
            *final(self) == (Tvb { scenes: final(self).scenes, ..*old(self) }),
    {
        let mut scenes: [bool; 36] = self.scenes;
        scenes[index as usize] = false;
        self.scenes = scenes;
    }

    /// The addresses of a work that uses this buffer and one of its scenes.
    pub open spec fn work_of(self, a: Addresses, scene: u32) -> Addresses {
        let p = self.addresses;
        Addresses {
            buffer_manager_slot: p.buffer_manager_slot,
            buffer_manager: p.buffer_manager,
            buffer_manager_block_control: p.buffer_manager_block_control,
            buffer_manager_scene_list: p.buffer_manager_scene_list,
            buffer_manager_counter: p.buffer_manager_counter,
            buffer_manager_block_list: p.buffer_manager_block_list,
            buffer_manager_page_list: p.buffer_manager_page_list,
            buffer_thing: (operands::page_start(p.buffer_thing) + scene * 0x80) as u64,
            ..a
        }
    }

    /// Points a work at this buffer and one of its scenes.
    pub fn work_addresses(&self, a: &mut Addresses, scene: u32)
        requires
            operands::page_start(self.addresses.buffer_thing) + scene * 0x80 <= u64::MAX,
        ensures
            *final(a) == self.work_of(*old(a), scene),
    {
        let p: Addresses = self.addresses;
        a.buffer_manager_slot = p.buffer_manager_slot;
        a.buffer_manager = p.buffer_manager;
        a.buffer_manager_block_control = p.buffer_manager_block_control;
        a.buffer_manager_scene_list = p.buffer_manager_scene_list;
        a.buffer_manager_counter = p.buffer_manager_counter;
        a.buffer_manager_block_list = p.buffer_manager_block_list;
        a.buffer_manager_page_list = p.buffer_manager_page_list;
        a.buffer_thing = p.buffer_thing / 0x4000 * 0x4000 + scene as u64 * 0x80;
    }

    /// Whether a growth request agrees with what was published. Another queued request can arrive
    /// before the firmware consumes the previous reply, so its mirror may lag behind.
    pub open spec fn consistent(self, seen: Observed) -> bool {
        &&& seen.root == self.root
        &&& seen.mirror <= self.blocks
        &&& seen.counts.0 == self.blocks
        &&& seen.counts.1 == self.blocks
        &&& seen.block_list == self.addresses.buffer_manager_block_list
        &&& seen.block_control == self.addresses.buffer_manager_block_control
        &&& seen.block_size == 0x20000
    }

    /// The number of blocks to grow to; none where the limit is reached. A firmware request tells that
    /// the heap lacks free pages; it is given three times the blocks as headroom.
    pub fn grow(&self, seen: Observed, limit: u32) -> (out: Result<Option<u32>, Error>)
        requires
            self.wf(),
        ensures
            ({
                let new = target(self.blocks as int, bound(limit) as int);
                out == if !self.consistent(seen) || new > seen.capacity || new * 16 > 0x1c000 {
                    Err::<Option<u32>, Error>(Error::EIO)
                } else if new == self.blocks {
                    Ok(None)
                } else {
                    Ok(Some(new as u32))
                }
            }),
    {
        let blocks: u32 = self.blocks;
        if seen.root != self.root || seen.mirror > blocks || seen.counts.0 != blocks || seen.counts.1
            != blocks || seen.block_list != self.addresses.buffer_manager_block_list
            || seen.block_control != self.addresses.buffer_manager_block_control || seen.block_size
            != 0x20000 {
            return Err(Error::EIO);
        }
        let limit: u32 = if limit < MAX_BLOCKS {
            limit
        } else {
            MAX_BLOCKS
        };
        let capped: u32 = if blocks * 3 < limit {
            blocks * 3
        } else {
            limit
        };
        let new: u32 = if capped > blocks {
            capped
        } else {
            blocks
        };
        if new > seen.capacity || new * 8 > 0x10000 || new * 16 > 0x1c000 {
            return Err(Error::EIO);
        }
        if new == blocks {
            return Ok(None);
        }
        Ok(Some(new))
    }

    /// The next smaller number of blocks to try after backing for `new` could not be had. Headroom is
    /// optional: it is halved before the firmware is asked to render partially.
    pub fn smaller(&self, new: u32) -> (out: Option<u32>)
        requires
            new > self.blocks,
        ensures
            out == if new - self.blocks == 1 {
                None
            } else {
                Some((self.blocks + (new - self.blocks) / 2) as u32)
            },
            out is Some ==> self.blocks < out->0 < new,
    {
        let more: u32 = new - self.blocks;
        if more == 1 {
            return None;
        }
        Some(self.blocks + more / 2)
    }

    /// The block list entries of new blocks that are backed from `base` on, and where they go.
    pub fn entries(&self, base: u64, new: u32) -> (out: (u64, Vec<u8>))
        requires
            self.blocks < new <= 7168,
            self.addresses.buffer_manager_block_list + self.blocks * 8 <= u64::MAX,
            0x10_0000_0000 <= base,
            base + (new - self.blocks) * 0x28000 <= u64::MAX,
        ensures
            out.0 == self.addresses.buffer_manager_block_list + self.blocks * 8,
            out.1@ == bytes::image(
                ((new - self.blocks) * 8) as nat,
                block_entries(base as int, new - self.blocks),
            ),
    {
        let count: usize = (new - self.blocks) as usize;
        let mut fields: Vec<Field> = Vec::new();
        let mut i: usize = 0;
        let ghost want = block_entries(base as int, count as int);
        while i < count
            invariant
                i <= count,
                count <= 7168,
                0x10_0000_0000 <= base,
                base + count * 0x28000 <= u64::MAX,
                want == block_entries(base as int, count as int),
                fields@ == want.take(i as int),
                bytes::all_fit(fields@, (count * 8) as nat),
            decreases count - i,
        {
            let block: u64 = base + i as u64 * 0x28000;
            fields.push(w64(8 * i, (block - 0x10_0000_0000) / 0x8000));
            i += 1;
            assert(fields@ =~= want.take(i as int));
        }
        assert(fields@ =~= want);
        let mut bytes: Vec<u8> = vec![0u8; count * 8];
        assert(bytes@ =~= bytes::zeros((count * 8) as nat));
        bytes::fill(bytes.as_mut_slice(), fields.as_slice());
        (self.addresses.buffer_manager_block_list + self.blocks as u64 * 8, bytes)
    }

    /// The block counts that publish the new blocks, and where they go.
    pub fn counts(&self, new: u32) -> (out: (u64, [u8; 8]))
        ensures
            out.0 == self.addresses.buffer_manager_block_control,
            out.1@ == bytes::image(8, seq![w32(0, new), w32(4, new)]),
    {
        let fields = [w32(0, new), w32(4, new)];
        assert(fields@ =~= seq![w32(0, new), w32(4, new)]);
        (self.addresses.buffer_manager_block_control, encode::<8>(&fields))
    }

    /// Notes that new blocks have been published.
    pub fn grown(&mut self, new: u32)
        requires
            new <= 7168,
        ensures
            *final(self) == (Tvb { blocks: new, ..*old(self) }),
            final(self).wf(),
    {
        self.blocks = new;
    }
}

/// The identifiers of different new blocks differ by whole blocks, so no page is listed twice.
pub proof fn lemma_blocks_disjoint(base: int, i: int, j: int)
    requires
        0x10_0000_0000 <= base,
        base % 0x8000 == 0,
        0 <= i < j,
    ensures
        block_id(base, i) + 5 <= block_id(base, j),
{
}

/// Growth is monotone and stays within the limit unless it has been exceeded already.
pub proof fn lemma_growth_bounded(blocks: int, limit: int)
    requires
        0 <= blocks,
        0 <= limit,
    ensures
        blocks <= target(blocks, limit),
        target(blocks, limit) <= 3 * blocks,
        target(blocks, limit) <= limit || target(blocks, limit) == blocks,
{
}

/// Leasing a scene and giving it back leaves the leases as they were.
pub proof fn lemma_scene_returned(scenes: Seq<bool>, index: int)
    requires
        0 <= index < scenes.len(),
        !scenes[index],
    ensures
        scenes.update(index, true).update(index, false) == scenes,
{
    assert(scenes.update(index, true).update(index, false) =~= scenes);
}

} // verus!
