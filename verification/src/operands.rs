//! Private storage of a render context: operand pools, accelerator aliases and the initial contents of
//! every page.
use crate::bytes;
use crate::bytes::{encode, fill, low32, w32, w64, Field};
use crate::render::{Addresses, Parameters};
use vstd::prelude::*;

verus! {

/// Base of a VM's firmware operand storage.
pub const CONTEXT_BASE: u64 = 0x10_0000_0000;

/// Size of the private storage in the caller's kernel carveout.
pub const PRIVATE_SIZE: usize = 0x35d4000;

/// Offset of the heap metadata in the private storage.
pub const HEAPMETA_OFFSET: u64 = 0x35d0000;

/// Distance between operand buffers.
pub const OPERAND_STRIDE: u64 = 0x208000;

/// Reserved support leases; work storage is allocated per publication.
pub const SUPPORT_BASE: u64 = 0xffff_fc20_c300_0000;

/// Where the operand directory, its table and its buffers lie.
#[derive(Clone, Copy, Debug, PartialEq, Eq, Structural)]
pub struct OperandPool {
    pub directory: u64,
    pub table: u64,
    pub buffer: u64,
}

/// The first multiple of 0x8000 that is not below an address.
pub open spec fn round_block(address: int) -> int {
    (address + 0x7fff) / 0x8000 * 0x8000
}

impl OperandPool {
    /// The end of the last buffer.
    pub open spec fn end_of(self) -> int {
        self.buffer + 24 * 0x208000
    }

    /// The pool behind the private storage of a carveout.
    pub open spec fn at_start(start: int) -> (int, int, int) {
        (start + 0x35d8000, start + 0x35d8000 + 0x408000, start + 0x35d8000 + 0x420000)
    }

    /// Places a pool behind the private storage of a carveout, if it fits.
    pub fn new(start: u64, end: u64) -> (out: Option<Self>)
        ensures
            ({
                let (directory, table, buffer) = Self::at_start(start as int);
                if start % 0x4000 == 0 && buffer + 24 * 0x208000 <= end {
                    out is Some && out->0.directory == directory && out->0.table == table
                        && out->0.buffer == buffer
                } else {
                    out is None
                }
            }),
    {
        let directory: u64 = match start.checked_add(0x35d8000) {
            Some(directory) => directory,
            None => {
                return None;
            },
        };
        let table: u64 = match directory.checked_add(0x408000) {
            Some(table) => table,
            None => {
                return None;
            },
        };
        let buffer: u64 = match table.checked_add(0x18000) {
            Some(buffer) => buffer,
            None => {
                return None;
            },
        };
        let pool = Self { directory, table, buffer };
        match pool.end() {
            Some(last) => {
                if start % 0x4000 != 0 || last > end {
                    return None;
                }
            },
            None => {
                return None;
            },
        }
        Some(pool)
    }

    /// The end of the last buffer, if it is an address.
    pub fn end(&self) -> (out: Option<u64>)
        ensures
            out == if self.end_of() <= u64::MAX {
                Some(self.end_of() as u64)
            } else {
                None
            },
    {
        self.buffer.checked_add(24 * OPERAND_STRIDE)
    }

    /// Where tiler growth starts: behind the buffers, on a block.
    pub fn growth_base(&self) -> (out: Option<u64>)
        ensures
            out == if self.end_of() + 0x7fff <= u64::MAX {
                Some(round_block(self.end_of()) as u64)
            } else {
                None
            },
    {
        match self.end() {
            None => None,
            Some(end) => match end.checked_add(0x7fff) {
                None => None,
                Some(top) => Some(top / 0x8000 * 0x8000),
            },
        }
    }

    /// Where tiler growth ends.
    pub fn growth_end(&self) -> (out: Option<u64>)
        ensures
            out == if self.end_of() + 0x7fff <= u64::MAX && round_block(self.end_of()) + 0x3200000
                <= u64::MAX {
                Some((round_block(self.end_of()) + 0x3200000) as u64)
            } else {
                None
            },
    {
        match self.growth_base() {
            None => None,
            Some(base) => base.checked_add(0x3200000),
        }
    }

    /// The fields of a support block: the directory with its entries, the pages behind it, and the table.
    pub open spec fn support_fields(self, id: u64, shared: u64) -> Seq<Field> {
        seq![
            w64(0, id),
            w64(0x14, self.directory),
            w32(0x1c, 0x80000),
            w32(0x24, 0x3000),
            w32(0x2c, 0x3000),
            w64(0x30, self.table),
            w32(0x48, 192),
            w64(0x4c, shared),
        ]
    }

    /// The support block that hands the pool to the firmware.
    pub fn support(&self, id: u64, shared: u64) -> (out: [u8; 0x100])
        ensures
            out@ == bytes::image(0x100, self.support_fields(id, shared)),
    {
        let fields = [
            w64(0, id),
            w64(0x14, self.directory),
            w32(0x1c, 0x80000),
            w32(0x24, 0x3000),
            w32(0x2c, 0x3000),
            w64(0x30, self.table),
            w32(0x48, 192),
            w64(0x4c, shared),
        ];
        assert(fields@ =~= self.support_fields(id, shared));
        encode::<0x100>(&fields)
    }
}

/// The accelerator-derived aliases, which alone lie outside the kernel carveout of a VM.
pub fn fixed_ranges() -> (out: [(u64, usize); 14])
    ensures
        out@[0] == (0x10_0008_0000u64, 0x4000usize),
        out@[1] == (0x10_0025_8000u64, 0x1c000usize),
        out@[2] == (0x10_0024_0000u64, 0x4000usize),
        forall|i: int|
            3 <= i < 14 ==> #[trigger] out@[i] == (
                (0x10_0008_8000 + (i - 3) * 0x28000) as u64,
                0x20000usize,
            ),
{
    [
        (0x10_0008_0000, 0x4000),
        (0x10_0025_8000, 0x1c000),
        (0x10_0024_0000, 0x4000),
        (0x10_0008_8000 + 0 * 0x28000, 0x20000),
        (0x10_0008_8000 + 1 * 0x28000, 0x20000),
        (0x10_0008_8000 + 2 * 0x28000, 0x20000),
        (0x10_0008_8000 + 3 * 0x28000, 0x20000),
        (0x10_0008_8000 + 4 * 0x28000, 0x20000),
        (0x10_0008_8000 + 5 * 0x28000, 0x20000),
        (0x10_0008_8000 + 6 * 0x28000, 0x20000),
        (0x10_0008_8000 + 7 * 0x28000, 0x20000),
        (0x10_0008_8000 + 8 * 0x28000, 0x20000),
        (0x10_0008_8000 + 9 * 0x28000, 0x20000),
        (0x10_0008_8000 + 10 * 0x28000, 0x20000),
    ]
}

/// The aliases of a pool: accelerator address, backing offset in the kernel carveout, extent.
pub open spec fn alias_of(pool: OperandPool, i: int) -> (u64, u64, usize) {
    if i == 0 {
        (0x10_0008_0000, 0x3c000, 0x4000)
    } else if i == 1 {
        (0x10_0025_8000, 0x3450000, 0x1c000)
    } else if i == 2 {
        (0x10_0024_0000, 0x346c000, 0x4000)
    } else if i == 3 {
        (pool.directory, 0x40000, 0x400000)
    } else if i == 4 {
        (pool.table, 0x440000, 0x10000)
    } else if i < 16 {
        (
            (0x10_0008_8000 + (i - 5) * 0x28000) as u64,
            (0x3470000 + (i - 5) * 0x20000) as u64,
            0x20000,
        )
    } else {
        (
            (pool.buffer + (i - 16) * 0x208000) as u64,
            (0x450000 + (i - 16) * 0x200000) as u64,
            0x200000,
        )
    }
}

/// The aliases of a pool.
pub fn private_aliases(pool: &OperandPool) -> (out: [(u64, u64, usize); 40])
    requires
        pool.buffer + 23 * 0x208000 <= u64::MAX,
    ensures
        forall|i: int| 0 <= i < 40 ==> #[trigger] out@[i] == alias_of(*pool, i),
{
    [
        (0x10_0008_0000, 0x3c000, 0x4000),
        (0x10_0025_8000, 0x3450000, 0x1c000),
        (0x10_0024_0000, 0x346c000, 0x4000),
        (pool.directory, 0x40000, 0x400000),
        (pool.table, 0x440000, 0x10000),
        (0x10_0008_8000 + 0 * 0x28000, 0x3470000 + 0 * 0x20000, 0x20000),
        (0x10_0008_8000 + 1 * 0x28000, 0x3470000 + 1 * 0x20000, 0x20000),
        (0x10_0008_8000 + 2 * 0x28000, 0x3470000 + 2 * 0x20000, 0x20000),
        (0x10_0008_8000 + 3 * 0x28000, 0x3470000 + 3 * 0x20000, 0x20000),
        (0x10_0008_8000 + 4 * 0x28000, 0x3470000 + 4 * 0x20000, 0x20000),
        (0x10_0008_8000 + 5 * 0x28000, 0x3470000 + 5 * 0x20000, 0x20000),
        (0x10_0008_8000 + 6 * 0x28000, 0x3470000 + 6 * 0x20000, 0x20000),
        (0x10_0008_8000 + 7 * 0x28000, 0x3470000 + 7 * 0x20000, 0x20000),
        (0x10_0008_8000 + 8 * 0x28000, 0x3470000 + 8 * 0x20000, 0x20000),
        (0x10_0008_8000 + 9 * 0x28000, 0x3470000 + 9 * 0x20000, 0x20000),
        (0x10_0008_8000 + 10 * 0x28000, 0x3470000 + 10 * 0x20000, 0x20000),
        (pool.buffer + 0 * OPERAND_STRIDE, 0x450000 + 0 * 0x200000, 0x200000),
        (pool.buffer + 1 * OPERAND_STRIDE, 0x450000 + 1 * 0x200000, 0x200000),
        (pool.buffer + 2 * OPERAND_STRIDE, 0x450000 + 2 * 0x200000, 0x200000),
        (pool.buffer + 3 * OPERAND_STRIDE, 0x450000 + 3 * 0x200000, 0x200000),
        (pool.buffer + 4 * OPERAND_STRIDE, 0x450000 + 4 * 0x200000, 0x200000),
        (pool.buffer + 5 * OPERAND_STRIDE, 0x450000 + 5 * 0x200000, 0x200000),
        (pool.buffer + 6 * OPERAND_STRIDE, 0x450000 + 6 * 0x200000, 0x200000),
        (pool.buffer + 7 * OPERAND_STRIDE, 0x450000 + 7 * 0x200000, 0x200000),
        (pool.buffer + 8 * OPERAND_STRIDE, 0x450000 + 8 * 0x200000, 0x200000),
        (pool.buffer + 9 * OPERAND_STRIDE, 0x450000 + 9 * 0x200000, 0x200000),
        (pool.buffer + 10 * OPERAND_STRIDE, 0x450000 + 10 * 0x200000, 0x200000),
        (pool.buffer + 11 * OPERAND_STRIDE, 0x450000 + 11 * 0x200000, 0x200000),
        (pool.buffer + 12 * OPERAND_STRIDE, 0x450000 + 12 * 0x200000, 0x200000),
        (pool.buffer + 13 * OPERAND_STRIDE, 0x450000 + 13 * 0x200000, 0x200000),
        (pool.buffer + 14 * OPERAND_STRIDE, 0x450000 + 14 * 0x200000, 0x200000),
        (pool.buffer + 15 * OPERAND_STRIDE, 0x450000 + 15 * 0x200000, 0x200000),
        (pool.buffer + 16 * OPERAND_STRIDE, 0x450000 + 16 * 0x200000, 0x200000),
        (pool.buffer + 17 * OPERAND_STRIDE, 0x450000 + 17 * 0x200000, 0x200000),
        (pool.buffer + 18 * OPERAND_STRIDE, 0x450000 + 18 * 0x200000, 0x200000),
        (pool.buffer + 19 * OPERAND_STRIDE, 0x450000 + 19 * 0x200000, 0x200000),
        (pool.buffer + 20 * OPERAND_STRIDE, 0x450000 + 20 * 0x200000, 0x200000),
        (pool.buffer + 21 * OPERAND_STRIDE, 0x450000 + 21 * 0x200000, 0x200000),
        (pool.buffer + 22 * OPERAND_STRIDE, 0x450000 + 22 * 0x200000, 0x200000),
        (pool.buffer + 23 * OPERAND_STRIDE, 0x450000 + 23 * 0x200000, 0x200000),
    ]
}

/// The backing extents of the aliases of a pool do not overlap, and lie inside the private storage.
pub proof fn lemma_alias_backing_disjoint(pool: OperandPool, i: int, j: int)
    requires
        0 <= i < 40,
        0 <= j < 40,
        i != j,
    ensures
        alias_of(pool, i).1 + alias_of(pool, i).2 <= alias_of(pool, j).1 || alias_of(pool, j).1
            + alias_of(pool, j).2 <= alias_of(pool, i).1,
        alias_of(pool, i).1 + alias_of(pool, i).2 <= PRIVATE_SIZE,
{
}

/// The address of an operand page.
pub open spec fn operand_address(pool: OperandPool, page: int) -> u64 {
    (pool.buffer + (page / 512) * 0x208000 + (page % 512) * 0x1000) as u64
}

/// The fields of a page of the private storage.
pub open spec fn private_fields(pool: OperandPool, offset: int) -> Seq<Field> {
    if offset == 0x38000 {
        seq![w32(0x600, 0x6000_0000), w32(0x604, 0x35b)]
    } else if 0x40000 <= offset < 0x58000 {
        Seq::new(
            0x800,
            |i: int| w64((8 * i) as usize, operand_address(pool, (offset - 0x40000) / 8 + i)),
        )
    } else if offset == 0x440000 {
        Seq::new(
            24,
            |i: int|
                w64(
                    (0x40 * i) as usize,
                    ((pool.buffer + i * 0x208000) as u64) | 0x2000_0000_0000_0000,
                ),
        )
    } else if offset == 0x3450000 {
        page_numbers()
    } else {
        Seq::empty()
    }
}

/// The page list of eleven blocks: four of every five pages.
pub open spec fn page_numbers() -> Seq<Field> {
    Seq::new(44, |k: int| w32((4 * k) as usize, (0x11 + (k / 4) * 5 + k % 4) as u32))
}

/// The page list of eleven blocks.
fn list_pages() -> (out: Vec<Field>)
    ensures
        out@ == page_numbers(),
        bytes::all_fit(out@, 0x4000),
{
    let mut out: Vec<Field> = Vec::new();
    let mut k: usize = 0;
    while k < 44
        invariant
            k <= 44,
            out@ == page_numbers().take(k as int),
            bytes::all_fit(out@, 0x4000),
        decreases 44 - k,
    {
        out.push(w32(4 * k, (0x11 + (k / 4) * 5 + k % 4) as u32));
        k += 1;
        assert(out@ =~= page_numbers().take(k as int));
    }
    assert(out@ =~= page_numbers());
    out
}

/// Whether a page of the private storage is asked for, with room for it.
pub open spec fn private_page_ok(offset: int, size: int) -> bool {
    offset % 0x4000 == 0 && offset < PRIVATE_SIZE && size == 0x4000
}

/// Fills in one initialized page of the private storage. All unmapped padding and scratch begin at
/// zero.
pub fn private_page(pool: &OperandPool, offset: usize, out: &mut [u8]) -> (done: Option<()>)
    requires
        pool.buffer + 24 * 0x208000 <= u64::MAX,
    ensures
        if private_page_ok(offset as int, old(out)@.len() as int) {
            done is Some && final(out)@ == bytes::image(0x4000, private_fields(*pool, offset as int))
        } else {
            done is None && final(out)@ == old(out)@
        },
{
    if offset % 0x4000 != 0 || offset >= PRIVATE_SIZE || out.len() != 0x4000 {
        return None;
    }
    bytes::clear(out);
    let mut fields: Vec<Field> = Vec::new();
    let ghost want = private_fields(*pool, offset as int);
    if offset == 0x38000 {
        fields.push(w32(0x600, 0x6000_0000));
        fields.push(w32(0x604, 0x35b));
    } else if offset >= 0x40000 && offset < 0x58000 {
        let first: usize = (offset - 0x40000) / 8;
        let mut i: usize = 0;
        while i < 0x800
            invariant
                i <= 0x800,
                0x40000 <= offset < 0x58000,
                offset % 0x4000 == 0,
                first == (offset - 0x40000) / 8,
                pool.buffer + 24 * 0x208000 <= u64::MAX,
                want == private_fields(*pool, offset as int),
                fields@ == want.take(i as int),
                bytes::all_fit(fields@, 0x4000),
            decreases 0x800 - i,
        {
            let page: usize = first + i;
            fields.push(
                w64(
                    8 * i,
                    pool.buffer + (page / 512) as u64 * OPERAND_STRIDE + (page % 512) as u64 * 0x1000,
                ),
            );
            i += 1;
            assert(fields@ =~= want.take(i as int));
        }
    } else if offset == 0x440000 {
        let mut i: usize = 0;
        while i < 24
            invariant
                i <= 24,
                offset == 0x440000,
                pool.buffer + 24 * 0x208000 <= u64::MAX,
                want == private_fields(*pool, offset as int),
                fields@ == want.take(i as int),
                bytes::all_fit(fields@, 0x4000),
            decreases 24 - i,
        {
            fields.push(
                w64(
                    0x40 * i,
                    (pool.buffer + i as u64 * OPERAND_STRIDE) | 0x2000_0000_0000_0000,
                ),
            );
            i += 1;
            assert(fields@ =~= want.take(i as int));
        }
    } else if offset == 0x3450000 {
        fields = list_pages();
    }
    assert(fields@ =~= want);
    fill(out, fields.as_slice());
    Some(())
}

impl Parameters {
    /// Whether a carveout holds the private storage within reach of the context base, and the pool
    /// behind it.
    pub open spec fn private_fits(start: u64, end: u64) -> bool {
        &&& start % 0x4000 == 0
        &&& start >= CONTEXT_BASE
        &&& start + PRIVATE_SIZE <= end
        &&& start + PRIVATE_SIZE <= CONTEXT_BASE + 0x1_0000_0000
        &&& OperandPool::at_start(start as int).2 + 24 * 0x208000 <= end
    }

    /// The parameters with their private storage placed in a carveout.
    pub open spec fn with_private(self, start: u64) -> Self {
        Parameters {
            context_base: CONTEXT_BASE,
            tilemap: start,
            heapmeta: (start + HEAPMETA_OFFSET) as u64,
            tpc: (start + 0x28000) as u64,
            deflake_1: (start + 0x2c2a0) as u64,
            deflake_2: (start + 0x2c020) as u64,
            deflake_3: (start + 0x2c000) as u64,
            ta_status: (start + 0x30240) as u64,
            fragment_status: (start + 0x342c0) as u64,
            aux_fb: (start + 0x38000) as u64,
            ..self
        }
    }

    /// Places the private storage in a carveout, if it fits.
    pub fn set_private(&mut self, start: u64, end: u64) -> (done: Option<()>)
        ensures
            if Self::private_fits(start, end) {
                done is Some && *final(self) == old(self).with_private(start)
            } else {
                done is None && *final(self) == *old(self)
            },
    {
        if start % 0x4000 != 0 || start < CONTEXT_BASE {
            return None;
        }
        match start.checked_add(PRIVATE_SIZE as u64) {
            None => {
                return None;
            },
            Some(last) => {
                if last > end || last > CONTEXT_BASE + 0x1_0000_0000 {
                    return None;
                }
            },
        }
        match OperandPool::new(start, end) {
            None => {
                return None;
            },
            Some(_) => {},
        }
        self.context_base = CONTEXT_BASE;
        self.tilemap = start;
        self.heapmeta = start + HEAPMETA_OFFSET;
        self.tpc = start + 0x28000;
        self.deflake_1 = start + 0x2c2a0;
        self.deflake_2 = start + 0x2c020;
        self.deflake_3 = start + 0x2c000;
        self.ta_status = start + 0x30240;
        self.fragment_status = start + 0x342c0;
        self.aux_fb = start + 0x38000;
        Some(())
    }

    /// Private storage that was placed in a carveout is within reach of the context base.
    pub proof fn lemma_private_in_reach(self, start: u64, end: u64)
        requires
            Self::private_fits(start, end),
            self.layermeta == 0,
        ensures
            ({
                let p = self.with_private(start);
                &&& crate::render::in_context(p.context_base, p.tilemap)
                &&& crate::render::in_context(p.context_base, p.heapmeta)
                &&& crate::render::in_context(p.context_base, p.layer_metadata_of())
                &&& crate::render::in_context(p.context_base, p.tpc)
                &&& crate::render::in_context(p.context_base, p.deflake_1)
                &&& crate::render::in_context(p.context_base, p.deflake_2)
                &&& crate::render::in_context(p.context_base, p.deflake_3)
            }),
    {
    }
}

/// The page that an address lies in.
pub open spec fn page_start(address: u64) -> u64 {
    (address / 0x4000 * 0x4000) as u64
}

impl Addresses {
    /// The initial device-owned render transport placement. All serialized links are derived from
    /// these allocations, independently of client resources.
    pub open spec fn initial() -> Self {
        Addresses {
            buffer_manager: 0xfffffc20c0678000,
            buffer_manager_block_control: 0xfffffc2000340000,
            buffer_manager_block_list: 0xfffffc20c0878000,
            buffer_manager_counter: 0xfffffc2000350000,
            buffer_manager_page_list: 0xfffffc20c0890000,
            buffer_manager_scene_list: 0xfffffc2000348000,
            buffer_manager_slot: 0x7,
            buffer_thing: 0xfffffc20c0600080,
            context_id: 0x9,
            empty_buffer: 0xfffffc20c0602800,
            event_control: 0xfffffc20c0588100,
            event_count_array: 0xfffffc20001b0000,
            fragment_counter: 0x0,
            fragment_driver_stamp: 0xfffffc2000118044,
            fragment_event: 0x11,
            fragment_firmware_stamp: 0xfffffc20c0510044,
            fragment_microsequence: 0xfffffc20c0469680,
            fragment_prelude: 0xfffffc20c029fbc0,
            fragment_queue: 0xfffffc20c0824980,
            fragment_register_alias: 0x7000141bc0,
            fragment_shared_tail: 0xfffffc2000358000,
            fragment_stamp: 0x100,
            fragment_stats: 0xfffffc20c04db2c8,
            fragment_status_page: 0x1000278000,
            fragment_user_timestamp_end: 0x0,
            fragment_user_timestamp_start: 0x0,
            fragment_uuid: 0x900a6ba,
            fragment_work: 0xfffffc20c0161b40,
            pool_slots: 0x1000080000,
            render_shared_state: 0xfffffc20001b8000,
            support: 0xfffffc20c05b8000,
            tiling_counter: 0x1,
            tiling_driver_stamp: 0xfffffc2000118040,
            tiling_event: 0x10,
            tiling_firmware_stamp: 0xfffffc20c0510040,
            tiling_microsequence: 0xfffffc20c03a2340,
            tiling_prelude: 0xfffffc20c0350600,
            tiling_queue: 0xfffffc20c08224c0,
            tiling_register_alias: 0x700004a980,
            tiling_shared_tail: 0xfffffc2000300000,
            tiling_stamp: 0xc00,
            tiling_stats: 0xfffffc20c04da684,
            tiling_status_page: 0x1000078000,
            tiling_user_timestamp_end: 0x0,
            tiling_user_timestamp_start: 0x0,
            tiling_uuid: 0x900a6bb,
            tiling_work: 0xfffffc20c006a940,
            timestamp_end: 0xfffffc2000034fe0,
            timestamp_start: 0xfffffc2000034fd8,
        }
    }

    /// The initial device-owned render transport placement.
    pub fn bootstrap() -> (out: Self)
        ensures
            out == Self::initial(),
    {
        Addresses {
            buffer_manager: 0xfffffc20c0678000,
            buffer_manager_block_control: 0xfffffc2000340000,
            buffer_manager_block_list: 0xfffffc20c0878000,
            buffer_manager_counter: 0xfffffc2000350000,
            buffer_manager_page_list: 0xfffffc20c0890000,
            buffer_manager_scene_list: 0xfffffc2000348000,
            buffer_manager_slot: 0x7,
            buffer_thing: 0xfffffc20c0600080,
            context_id: 0x9,
            empty_buffer: 0xfffffc20c0602800,
            event_control: 0xfffffc20c0588100,
            event_count_array: 0xfffffc20001b0000,
            fragment_counter: 0x0,
            fragment_driver_stamp: 0xfffffc2000118044,
            fragment_event: 0x11,
            fragment_firmware_stamp: 0xfffffc20c0510044,
            fragment_microsequence: 0xfffffc20c0469680,
            fragment_prelude: 0xfffffc20c029fbc0,
            fragment_queue: 0xfffffc20c0824980,
            fragment_register_alias: 0x7000141bc0,
            fragment_shared_tail: 0xfffffc2000358000,
            fragment_stamp: 0x100,
            fragment_stats: 0xfffffc20c04db2c8,
            fragment_status_page: 0x1000278000,
            fragment_user_timestamp_end: 0x0,
            fragment_user_timestamp_start: 0x0,
            fragment_uuid: 0x900a6ba,
            fragment_work: 0xfffffc20c0161b40,
            pool_slots: 0x1000080000,
            render_shared_state: 0xfffffc20001b8000,
            support: 0xfffffc20c05b8000,
            tiling_counter: 0x1,
            tiling_driver_stamp: 0xfffffc2000118040,
            tiling_event: 0x10,
            tiling_firmware_stamp: 0xfffffc20c0510040,
            tiling_microsequence: 0xfffffc20c03a2340,
            tiling_prelude: 0xfffffc20c0350600,
            tiling_queue: 0xfffffc20c08224c0,
            tiling_register_alias: 0x700004a980,
            tiling_shared_tail: 0xfffffc2000300000,
            tiling_stamp: 0xc00,
            tiling_stats: 0xfffffc20c04da684,
            tiling_status_page: 0x1000078000,
            tiling_user_timestamp_end: 0x0,
            tiling_user_timestamp_start: 0x0,
            tiling_uuid: 0x900a6bb,
            tiling_work: 0xfffffc20c006a940,
            timestamp_end: 0xfffffc2000034fe0,
            timestamp_start: 0xfffffc2000034fd8,
        }
    }

    /// The regions of a placement that belong to the device.
    pub open spec fn regions_of(self) -> Seq<(u64, usize)> {
        seq![
            (self.buffer_manager, 0x4000usize),
            (self.buffer_manager_block_control, 0x4000),
            (self.buffer_manager_scene_list, 0x4000),
            (self.buffer_manager_counter, 0x4000),
            (page_start(self.buffer_thing), 0x4000),
            (self.buffer_manager_block_list, 0x10000),
            (self.buffer_manager_page_list, 0x1c000),
            (page_start(self.event_control), 0x4000),
            (self.support, 0x4000),
        ]
    }

    /// The device-owned regions of a placement.
    pub fn private_regions(&self) -> (out: [(u64, usize); 9])
        ensures
            out@ == self.regions_of(),
    {
        let out: [(u64, usize); 9] = [
            (self.buffer_manager, 0x4000),
            (self.buffer_manager_block_control, 0x4000),
            (self.buffer_manager_scene_list, 0x4000),
            (self.buffer_manager_counter, 0x4000),
            (self.buffer_thing / 0x4000 * 0x4000, 0x4000),
            (self.buffer_manager_block_list, 0x10000),
            (self.buffer_manager_page_list, 0x1c000),
            (self.event_control / 0x4000 * 0x4000, 0x4000),
            (self.support, 0x4000),
        ];
        assert(out@ =~= self.regions_of());
        out
    }

    /// The fields of the buffer manager: the page and block lists, their capacities and their cursors.
    pub open spec fn manager_fields(self) -> Seq<Field> {
        seq![
            w32(0xc, low32(self.buffer_manager_slot)),
            w32(0x28, 0x258000),
            w32(0x2c, 0x10),
            w32(0x30, 0x1c000),
            w32(0x34, 0x2c),
            w32(0x38, 0x19b3),
            w32(0x3c, 0xb),
            w32(0x54, 0x2b),
            w32(0x58, 0x20000),
            w32(0x7c, 0x66cc),
            w32(0x80, 0x2244),
            w32(0x84, 0x248000),
            w64(0x20, self.buffer_manager_page_list),
            w64(0x44, self.buffer_manager_block_list),
            w64(0x4c, self.buffer_manager_block_control),
            w64(0x64, self.buffer_manager_counter),
        ]
    }

    /// The fields of a scene record.
    pub open spec fn scene_fields(self, k: int) -> Field {
        let i = k / 5;
        if k % 5 == 0 {
            w64((i * 0x80) as usize, (self.pool_slots + i * 4) as u64)
        } else if k % 5 == 1 {
            w64((i * 0x80 + 8) as usize, (self.buffer_manager_scene_list + i * 4) as u64)
        } else if k % 5 == 2 {
            w64((i * 0x80 + 0x28) as usize, (0x240000 + (i % 36) * 0x30) as u64)
        } else if k % 5 == 3 {
            w64((i * 0x80 + 0x40) as usize, (self.buffer_manager_block_control + 0x40) as u64)
        } else {
            w64((i * 0x80 + 0x48) as usize, 0x1_0000_0000)
        }
    }

    /// The fields of a device-owned page of a placement.
    pub open spec fn page_fields(self, address: u64) -> Seq<Field> {
        if address == self.buffer_manager {
            self.manager_fields()
        } else if address == self.buffer_manager_block_control {
            seq![w32(0, 11), w32(4, 11), w32(0x60, 1)]
        } else if address == self.buffer_manager_counter {
            seq![w32(0, 1)]
        } else if address == self.buffer_manager_block_list {
            Seq::new(11, |i: int| w32((8 * i) as usize, (0x11 + i * 5) as u32))
        } else if address == self.buffer_manager_page_list {
            page_numbers()
        } else if address == page_start(self.buffer_thing) {
            Seq::new(400, |k: int| self.scene_fields(k))
        } else if address == page_start(self.event_control) {
            Seq::new(
                36,
                |i: int| w64((i * 0x100) as usize, (self.event_count_array + i * 4) as u64),
            ).push(w32((self.event_control % 0x4000 + 0x10) as usize, 0x50))
        } else {
            Seq::empty()
        }
    }

    /// Whether the links of a placement stay addresses, and its event record inside its page.
    pub open spec fn links_ok(self) -> bool {
        &&& self.pool_slots + 79 * 4 <= u64::MAX
        &&& self.buffer_manager_scene_list + 79 * 4 <= u64::MAX
        &&& self.buffer_manager_block_control + 0x40 <= u64::MAX
        &&& self.event_count_array + 35 * 4 <= u64::MAX
        &&& self.event_control % 0x4000 + 0x14 <= 0x4000
    }

    /// Fills in one device-owned page of a placement.
    pub fn private_page(&self, address: u64, out: &mut [u8]) -> (done: Option<()>)
        requires
            self.links_ok(),
        ensures
            if old(out)@.len() == 0x4000 && address % 0x4000 == 0 {
                done is Some && final(out)@ == bytes::image(0x4000, self.page_fields(address))
            } else {
                done is None && final(out)@ == old(out)@
            },
    {
        if out.len() != 0x4000 || address % 0x4000 != 0 {
            return None;
        }
        bytes::clear(out);
        let ghost want = self.page_fields(address);
        if address == self.buffer_manager {
            let fields = [
                w32(0xc, low32(self.buffer_manager_slot)),
                w32(0x28, 0x258000),
                w32(0x2c, 0x10),
                w32(0x30, 0x1c000),
                w32(0x34, 0x2c),
                w32(0x38, 0x19b3),
                w32(0x3c, 0xb),
                w32(0x54, 0x2b),
                w32(0x58, 0x20000),
                w32(0x7c, 0x66cc),
                w32(0x80, 0x2244),
                w32(0x84, 0x248000),
                w64(0x20, self.buffer_manager_page_list),
                w64(0x44, self.buffer_manager_block_list),
                w64(0x4c, self.buffer_manager_block_control),
                w64(0x64, self.buffer_manager_counter),
            ];
            assert(fields@ =~= want);
            fill(out, &fields);
        } else if address == self.buffer_manager_block_control {
            let fields = [w32(0, 11), w32(4, 11), w32(0x60, 1)];
            assert(fields@ =~= want);
            fill(out, &fields);
        } else if address == self.buffer_manager_counter {
            let fields = [w32(0, 1)];
            assert(fields@ =~= want);
            fill(out, &fields);
        } else if address == self.buffer_manager_block_list {
            let mut fields: Vec<Field> = Vec::new();
            let mut i: usize = 0;
            while i < 11
                invariant
                    i <= 11,
                    want == Seq::new(11, |i: int| w32((8 * i) as usize, (0x11 + i * 5) as u32)),
                    fields@ == want.take(i as int),
                    bytes::all_fit(fields@, 0x4000),
                decreases 11 - i,
            {
                fields.push(w32(8 * i, (0x11 + i * 5) as u32));
                i += 1;
                assert(fields@ =~= want.take(i as int));
            }
            assert(fields@ =~= want);
            fill(out, fields.as_slice());
        } else if address == self.buffer_manager_page_list {
            let fields = list_pages();
            assert(fields@ =~= want);
            fill(out, fields.as_slice());
        } else if address == self.buffer_thing / 0x4000 * 0x4000 {
            let mut fields: Vec<Field> = Vec::new();
            let mut i: usize = 0;
            while i < 80
                invariant
                    i <= 80,
                    self.links_ok(),
                    want == Seq::new(400, |k: int| self.scene_fields(k)),
                    fields@ == want.take(5 * i),
                    bytes::all_fit(fields@, 0x4000),
                decreases 80 - i,
            {
                fields.push(w64(i * 0x80, self.pool_slots + i as u64 * 4));
                fields.push(w64(i * 0x80 + 8, self.buffer_manager_scene_list + i as u64 * 4));
                fields.push(w64(i * 0x80 + 0x28, 0x240000 + (i as u64 % 36) * 0x30));
                fields.push(w64(i * 0x80 + 0x40, self.buffer_manager_block_control + 0x40));
                fields.push(w64(i * 0x80 + 0x48, 0x1_0000_0000));
                i += 1;
                assert(fields@ =~= want.take(5 * i));
            }
            assert(fields@ =~= want);
            fill(out, fields.as_slice());
        } else if address == self.event_control / 0x4000 * 0x4000 {
            let mut fields: Vec<Field> = Vec::new();
            let mut i: usize = 0;
            let ghost records = Seq::new(
                36,
                |i: int| w64((i * 0x100) as usize, (self.event_count_array + i * 4) as u64),
            );
            while i < 36
                invariant
                    i <= 36,
                    self.links_ok(),
                    records == Seq::new(
                        36,
                        |i: int| w64((i * 0x100) as usize, (self.event_count_array + i * 4) as u64),
                    ),
                    fields@ == records.take(i as int),
                    bytes::all_fit(fields@, 0x4000),
                decreases 36 - i,
            {
                fields.push(w64(i * 0x100, self.event_count_array + i as u64 * 4));
                i += 1;
                assert(fields@ =~= records.take(i as int));
            }
            assert(fields@ =~= records);
            fields.push(w32((self.event_control % 0x4000) as usize + 0x10, 0x50));
            assert(fields@ =~= want);
            fill(out, fields.as_slice());
        } else {
            let fields: [Field; 0] = [];
            assert(fields@ =~= want);
            fill(out, &fields);
        }
        Some(())
    }

    /// The addresses of the `ordinal`-th publication of a placement.
    pub open spec fn published(self, ordinal: u64) -> Self {
        Addresses {
            tiling_counter: (self.tiling_counter + ordinal * 2) as u64,
            fragment_counter: (self.fragment_counter + ordinal * 2) as u64,
            tiling_stamp: (self.tiling_stamp + ordinal * 0x100) as u64,
            fragment_stamp: (self.fragment_stamp + ordinal * 0x100) as u64,
            buffer_thing: (page_start(self.buffer_thing) + ((ordinal + 1) % 80) * 0x80) as u64,
            ..self
        }
    }

    /// The addresses of the `ordinal`-th publication of a placement, if it can be stamped.
    pub fn publication(&self, ordinal: u64) -> (out: Option<Self>)
        requires
            ordinal <= 0x00ff_fff0 ==> {
                &&& self.tiling_counter + ordinal * 2 <= u64::MAX
                &&& self.fragment_counter + ordinal * 2 <= u64::MAX
                &&& self.tiling_stamp + ordinal * 0x100 <= u64::MAX
                &&& self.fragment_stamp + ordinal * 0x100 <= u64::MAX
            },
        ensures
            out == if ordinal <= 0x00ff_fff0 {
                Some(self.published(ordinal))
            } else {
                None
            },
    {
        if ordinal > 0x00ff_fff0 {
            return None;
        }
        let mut a: Addresses = *self;
        a.tiling_counter = self.tiling_counter + ordinal * 2;
        a.fragment_counter = self.fragment_counter + ordinal * 2;
        a.tiling_stamp = self.tiling_stamp + ordinal * 0x100;
        a.fragment_stamp = self.fragment_stamp + ordinal * 0x100;
        a.buffer_thing = self.buffer_thing / 0x4000 * 0x4000 + ((ordinal + 1) % 80) * 0x80;
        Some(a)
    }

    /// The fields of the command before tiling.
    pub open spec fn tiling_prelude_fields(self, blocks: u32) -> Seq<Field> {
        seq![
            w32(0, 6),
            w32(4, low32(self.context_id)),
            w32(8, low32(self.buffer_manager_slot)),
            w32(0x10, blocks),
            w32(0x1c, low32(self.tiling_stamp)),
            w64(0x14, self.buffer_manager),
        ]
    }

    /// The command that readies the buffer manager before tiling.
    pub fn tiling_prelude(&self, blocks: u32) -> (out: [u8; 0x40])
        ensures
            out@ == bytes::image(0x40, self.tiling_prelude_fields(blocks)),
    {
        let fields = [
            w32(0, 6),
            w32(4, low32(self.context_id)),
            w32(8, low32(self.buffer_manager_slot)),
            w32(0x10, blocks),
            w32(0x1c, low32(self.tiling_stamp)),
            w64(0x14, self.buffer_manager),
        ];
        assert(fields@ =~= self.tiling_prelude_fields(blocks));
        encode::<0x40>(&fields)
    }

    /// The fields of the command before the fragment stage.
    pub open spec fn fragment_prelude_fields(self) -> Seq<Field> {
        seq![
            w32(0, 4),
            w64(4, self.tiling_firmware_stamp),
            w64(0xc, self.tiling_firmware_stamp),
            w32(0x14, low32(self.tiling_stamp)),
            w32(0x20, low32(self.tiling_event)),
            w32(0x24, low32(self.fragment_stamp)),
            w32(0x28, low32(self.fragment_uuid)),
        ]
    }

    /// The command that lets the fragment stage wait for tiling.
    pub fn fragment_prelude(&self) -> (out: [u8; 0x40])
        ensures
            out@ == bytes::image(0x40, self.fragment_prelude_fields()),
    {
        let fields = [
            w32(0, 4),
            w64(4, self.tiling_firmware_stamp),
            w64(0xc, self.tiling_firmware_stamp),
            w32(0x14, low32(self.tiling_stamp)),
            w32(0x20, low32(self.tiling_event)),
            w32(0x24, low32(self.fragment_stamp)),
            w32(0x28, low32(self.fragment_uuid)),
        ];
        assert(fields@ =~= self.fragment_prelude_fields());
        encode::<0x40>(&fields)
    }
}

} // verus!
