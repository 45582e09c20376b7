//! The memory that the firmware sees when it starts.
use crate::bytes;
use crate::bytes::{encode, w32, w64};
use crate::compute;
use crate::fw::{RootPointers, BUNDLE_ADDRESS, BUNDLE_SIZE, ROOT_ADDRESS};
use crate::fwspace::{FIRMWARE_END, FIRMWARE_START};
use crate::operands::SUPPORT_BASE;
use crate::plan;
use crate::plan::{push_word, push_write, Stored, Write};
use crate::platform;
use crate::platform::{zeroed, Platform, Register};
use crate::prot::{prot_fw_mmio_ro, prot_fw_mmio_rw, prot_fw_priv_rw, prot_fw_shared_ro, prot_fw_shared_rw, Prot};
use crate::queue;
use crate::queue::{barrier, context, jobs, pointers, Queue, STAMP};
use crate::render::Addresses;
use crate::tvb::Region;
use vstd::prelude::*;

verus! {

/// Number of regions that are reserved before the firmware starts.
pub const REGIONS: usize = 59;

/// The queue of the opening barrier. It is separate from the queues of clients: the firmware keeps
/// references to it.
pub const BOOT_QUEUE: u64 = 0xffff_fc20_c000_4980;

/// The cursors of the opening queue.
pub const BOOT_POINTERS: u64 = 0xffff_fc20_0001_50c0;

/// The ring of the opening queue.
pub const BOOT_RING: u64 = 0xffff_fc20_c001_50c0;

/// The job list of the opening queue.
pub const BOOT_JOBS: u64 = 0xffff_fc20_0000_0030;

/// The context of the opening queue.
pub const BOOT_CONTEXT: u64 = 0xffff_fc20_c050_8080;

/// The opening barrier.
pub const BOOT_BARRIER: u64 = 0xffff_fc20_c052_0080;

/// The shared version of the support objects.
pub const SUPPORT_VERSION: u64 = 0xffff_fc20_001b_0000;

/// The resume records of the support objects.
pub const RESUME_RECORDS: u64 = 0xffff_fc20_001b_8000;

/// How the firmware and the host use a region.
#[derive(Clone, Copy, Debug, PartialEq, Eq, Structural)]
pub enum Sharing {
    /// The host writes it, the firmware reads it.
    ReadOnly,
    /// Both write it.
    Shared,
    /// It belongs to the firmware.
    Private,
}

/// A range of addresses at which the firmware sees physical memory that is not the host's.
#[derive(Clone, Copy, Debug, PartialEq, Eq, Structural)]
pub struct Aperture {
    pub address: u64,
    pub physical: u64,
    pub size: u64,
    pub prot: Prot,
}

/// The access rights of a region.
#[verifier::allow_in_spec]
pub fn rights(sharing: Sharing) -> Prot
    returns
        (match sharing {
            Sharing::ReadOnly => prot_fw_shared_ro(),
            Sharing::Shared => prot_fw_shared_rw(),
            Sharing::Private => prot_fw_priv_rw(),
        }),
{
    match sharing {
        Sharing::ReadOnly => prot_fw_shared_ro(),
        Sharing::Shared => prot_fw_shared_rw(),
        Sharing::Private => prot_fw_priv_rw(),
    }
}

/// The regions by address: where each starts, how large it is, and how it is used.
pub open spec fn row(k: int) -> (u64, u64, Sharing) {
    if k == 0 {
        (0xffff_fc20_0000_0000, 0x4000, Sharing::Shared)
    } else if k == 1 {
        (0xffff_fc20_0001_0000, 0x8000, Sharing::Shared)
    } else if k == 2 {
        (0xffff_fc20_0003_0000, 0xc_4000, Sharing::Shared)
    } else if k == 3 {
        (0xffff_fc20_000f_8000, 0x4000, Sharing::ReadOnly)
    } else if k == 4 {
        (0xffff_fc20_0010_0000, 0x4000, Sharing::ReadOnly)
    } else if k == 5 {
        (0xffff_fc20_0010_8000, 0x4000, Sharing::ReadOnly)
    } else if k == 6 {
        (0xffff_fc20_0011_0000, 0x4000, Sharing::Shared)
    } else if k == 7 {
        (0xffff_fc20_0011_8000, 0x4000, Sharing::Shared)
    } else if k == 8 {
        (0xffff_fc20_0012_0000, 0x4000, Sharing::Shared)
    } else if k == 9 {
        (0xffff_fc20_0012_8000, 0x4000, Sharing::Shared)
    } else if k == 10 {
        (0xffff_fc20_0013_0000, 0x4000, Sharing::Shared)
    } else if k == 11 {
        (0xffff_fc20_0013_8000, 0x4000, Sharing::Shared)
    } else if k == 12 {
        (0xffff_fc20_0014_0000, 0x4000, Sharing::Shared)
    } else if k == 13 {
        (0xffff_fc20_0015_0000, 0x4000, Sharing::Shared)
    } else if k == 14 {
        (0xffff_fc20_001b_0000, 0x4000, Sharing::Shared)
    } else if k == 15 {
        (0xffff_fc20_001b_8000, 0x4000, Sharing::ReadOnly)
    } else if k == 16 {
        (0xffff_fc20_001c_0000, 0x4000, Sharing::Shared)
    } else if k == 17 {
        (0xffff_fc20_001c_4000, 0x4000, Sharing::Shared)
    } else if k == 18 {
        (0xffff_fc20_001c_8000, 0x4000, Sharing::Shared)
    } else if k == 19 {
        (0xffff_fc20_001c_c000, 0x4000, Sharing::Shared)
    } else if k == 20 {
        (0xffff_fc20_0030_0000, 0x4000, Sharing::Shared)
    } else if k == 21 {
        (0xffff_fc20_0034_0000, 0x4000, Sharing::Private)
    } else if k == 22 {
        (0xffff_fc20_0034_8000, 0x4000, Sharing::Private)
    } else if k == 23 {
        (0xffff_fc20_0035_0000, 0x4000, Sharing::Private)
    } else if k == 24 {
        (0xffff_fc20_0035_8000, 0x4000, Sharing::Shared)
    } else if k == 25 {
        (0xffff_fc20_0200_0000, 0x4000, Sharing::Shared)
    } else if k == 26 {
        (0xffff_fc20_c000_0000, 0x8000, Sharing::Private)
    } else if k == 27 {
        (0xffff_fc20_c001_0000, 0x8000, Sharing::Private)
    } else if k == 28 {
        (0xffff_fc20_c002_0000, 0x8_c000, Sharing::Private)
    } else if k == 29 {
        (0xffff_fc20_c00b_0000, 0xc_0000, Sharing::Private)
    } else if k == 30 {
        (0xffff_fc20_c017_8000, 0x9_4000, Sharing::Private)
    } else if k == 31 {
        (0xffff_fc20_c021_0000, 0x8_4000, Sharing::Private)
    } else if k == 32 {
        (0xffff_fc20_c029_8000, 0xa_c000, Sharing::Private)
    } else if k == 33 {
        (0xffff_fc20_c034_8000, 0x4000, Sharing::Private)
    } else if k == 34 {
        (0xffff_fc20_c035_0000, 0x4000, Sharing::Private)
    } else if k == 35 {
        (0xffff_fc20_c035_8000, 0x8000, Sharing::Private)
    } else if k == 36 {
        (0xffff_fc20_c036_8000, 0x8000, Sharing::Private)
    } else if k == 37 {
        (0xffff_fc20_c037_8000, 0xc000, Sharing::Private)
    } else if k == 38 {
        (0xffff_fc20_c038_8000, 0x3_4000, Sharing::Private)
    } else if k == 39 {
        (0xffff_fc20_c03c_0000, 0xc_4000, Sharing::Private)
    } else if k == 40 {
        (0xffff_fc20_c048_8000, 0x3_4000, Sharing::Private)
    } else if k == 41 {
        (0xffff_fc20_c04c_0000, 0x1_0000, Sharing::Private)
    } else if k == 42 {
        (0xffff_fc20_c04d_8000, 0x2_4000, Sharing::Private)
    } else if k == 43 {
        (0xffff_fc20_c050_0000, 0x4000, Sharing::Private)
    } else if k == 44 {
        (0xffff_fc20_c050_8000, 0x4000, Sharing::Shared)
    } else if k == 45 {
        (0xffff_fc20_c051_0000, 0x4000, Sharing::Private)
    } else if k == 46 {
        (0xffff_fc20_c052_0000, 0x4000, Sharing::Private)
    } else if k == 47 {
        (0xffff_fc20_c052_4000, 0x4000, Sharing::Shared)
    } else if k == 48 {
        (0xffff_fc20_c053_0000, 0x4000, Sharing::Private)
    } else if k == 49 {
        (0xffff_fc20_c058_8000, 0x4000, Sharing::Private)
    } else if k == 50 {
        (0xffff_fc20_c05b_8000, 0x4000, Sharing::Private)
    } else if k == 51 {
        (0xffff_fc20_c05e_8000, 0x4000, Sharing::Private)
    } else if k == 52 {
        (0xffff_fc20_c05e_c000, 0x4000, Sharing::Private)
    } else if k == 53 {
        (0xffff_fc20_c060_0000, 0x4000, Sharing::Private)
    } else if k == 54 {
        (0xffff_fc20_c067_8000, 0x4000, Sharing::Private)
    } else if k == 55 {
        (0xffff_fc20_c087_8000, 0x1_0000, Sharing::Private)
    } else if k == 56 {
        (0xffff_fc20_c089_0000, 0x1_c000, Sharing::Private)
    } else if k == 57 {
        (0xffff_fc20_c300_0000, 0x10_0000, Sharing::Shared)
    } else {
        (0xffff_fc20_c500_0000, 0xc000, Sharing::Private)
    }
}

/// A region of the map.
pub fn row_at(k: usize) -> (out: (u64, u64, Sharing))
    requires
        k < REGIONS,
    ensures
        out == row(k as int),
{
    match k {
        0 => (0xffff_fc20_0000_0000, 0x4000, Sharing::Shared),
        1 => (0xffff_fc20_0001_0000, 0x8000, Sharing::Shared),
        2 => (0xffff_fc20_0003_0000, 0xc_4000, Sharing::Shared),
        3 => (0xffff_fc20_000f_8000, 0x4000, Sharing::ReadOnly),
        4 => (0xffff_fc20_0010_0000, 0x4000, Sharing::ReadOnly),
        5 => (0xffff_fc20_0010_8000, 0x4000, Sharing::ReadOnly),
        6 => (0xffff_fc20_0011_0000, 0x4000, Sharing::Shared),
        7 => (0xffff_fc20_0011_8000, 0x4000, Sharing::Shared),
        8 => (0xffff_fc20_0012_0000, 0x4000, Sharing::Shared),
        9 => (0xffff_fc20_0012_8000, 0x4000, Sharing::Shared),
        10 => (0xffff_fc20_0013_0000, 0x4000, Sharing::Shared),
        11 => (0xffff_fc20_0013_8000, 0x4000, Sharing::Shared),
        12 => (0xffff_fc20_0014_0000, 0x4000, Sharing::Shared),
        13 => (0xffff_fc20_0015_0000, 0x4000, Sharing::Shared),
        14 => (0xffff_fc20_001b_0000, 0x4000, Sharing::Shared),
        15 => (0xffff_fc20_001b_8000, 0x4000, Sharing::ReadOnly),
        16 => (0xffff_fc20_001c_0000, 0x4000, Sharing::Shared),
        17 => (0xffff_fc20_001c_4000, 0x4000, Sharing::Shared),
        18 => (0xffff_fc20_001c_8000, 0x4000, Sharing::Shared),
        19 => (0xffff_fc20_001c_c000, 0x4000, Sharing::Shared),
        20 => (0xffff_fc20_0030_0000, 0x4000, Sharing::Shared),
        21 => (0xffff_fc20_0034_0000, 0x4000, Sharing::Private),
        22 => (0xffff_fc20_0034_8000, 0x4000, Sharing::Private),
        23 => (0xffff_fc20_0035_0000, 0x4000, Sharing::Private),
        24 => (0xffff_fc20_0035_8000, 0x4000, Sharing::Shared),
        25 => (0xffff_fc20_0200_0000, 0x4000, Sharing::Shared),
        26 => (0xffff_fc20_c000_0000, 0x8000, Sharing::Private),
        27 => (0xffff_fc20_c001_0000, 0x8000, Sharing::Private),
        28 => (0xffff_fc20_c002_0000, 0x8_c000, Sharing::Private),
        29 => (0xffff_fc20_c00b_0000, 0xc_0000, Sharing::Private),
        30 => (0xffff_fc20_c017_8000, 0x9_4000, Sharing::Private),
        31 => (0xffff_fc20_c021_0000, 0x8_4000, Sharing::Private),
        32 => (0xffff_fc20_c029_8000, 0xa_c000, Sharing::Private),
        33 => (0xffff_fc20_c034_8000, 0x4000, Sharing::Private),
        34 => (0xffff_fc20_c035_0000, 0x4000, Sharing::Private),
        35 => (0xffff_fc20_c035_8000, 0x8000, Sharing::Private),
        36 => (0xffff_fc20_c036_8000, 0x8000, Sharing::Private),
        37 => (0xffff_fc20_c037_8000, 0xc000, Sharing::Private),
        38 => (0xffff_fc20_c038_8000, 0x3_4000, Sharing::Private),
        39 => (0xffff_fc20_c03c_0000, 0xc_4000, Sharing::Private),
        40 => (0xffff_fc20_c048_8000, 0x3_4000, Sharing::Private),
        41 => (0xffff_fc20_c04c_0000, 0x1_0000, Sharing::Private),
        42 => (0xffff_fc20_c04d_8000, 0x2_4000, Sharing::Private),
        43 => (0xffff_fc20_c050_0000, 0x4000, Sharing::Private),
        44 => (0xffff_fc20_c050_8000, 0x4000, Sharing::Shared),
        45 => (0xffff_fc20_c051_0000, 0x4000, Sharing::Private),
        46 => (0xffff_fc20_c052_0000, 0x4000, Sharing::Private),
        47 => (0xffff_fc20_c052_4000, 0x4000, Sharing::Shared),
        48 => (0xffff_fc20_c053_0000, 0x4000, Sharing::Private),
        49 => (0xffff_fc20_c058_8000, 0x4000, Sharing::Private),
        50 => (0xffff_fc20_c05b_8000, 0x4000, Sharing::Private),
        51 => (0xffff_fc20_c05e_8000, 0x4000, Sharing::Private),
        52 => (0xffff_fc20_c05e_c000, 0x4000, Sharing::Private),
        53 => (0xffff_fc20_c060_0000, 0x4000, Sharing::Private),
        54 => (0xffff_fc20_c067_8000, 0x4000, Sharing::Private),
        55 => (0xffff_fc20_c087_8000, 0x1_0000, Sharing::Private),
        56 => (0xffff_fc20_c089_0000, 0x1_c000, Sharing::Private),
        57 => (0xffff_fc20_c300_0000, 0x10_0000, Sharing::Shared),
        _ => (0xffff_fc20_c500_0000, 0xc000, Sharing::Private),
    }
}

/// The end of a region.
pub open spec fn row_end(k: int) -> int {
    row(k).0 + row(k).1
}

/// A region, with its rights.
pub open spec fn region(k: int) -> Region {
    Region { address: row(k).0, size: row(k).1, prot: rights(row(k).2) }
}

/// The regions that are reserved before the firmware starts.
pub fn reservations() -> (out: Vec<Region>)
    ensures
        out@ == Seq::new(REGIONS as nat, |k: int| region(k)),
{
    let mut out: Vec<Region> = Vec::new();
    let mut k: usize = 0;
    while k < REGIONS
        invariant
            k <= REGIONS,
            out@ == Seq::new(k as nat, |i: int| region(i)),
        decreases REGIONS - k,
    {
        let (address, size, sharing): (u64, u64, Sharing) = row_at(k);
        out.push(Region { address, size, prot: rights(sharing) });
        k += 1;
        assert(out@ =~= Seq::new(k as nat, |i: int| region(i)));
    }
    out
}

/// Every region is made of whole pages and lies in the firmware's half, and the next one is behind it.
proof fn lemma_row(k: int)
    requires
        0 <= k < REGIONS,
    ensures
        row(k).0 % 0x4000 == 0,
        row(k).1 % 0x4000 == 0,
        0 < row(k).1,
        FIRMWARE_START <= row(k).0,
        row_end(k) <= 0xffff_fc20_c500_c000,
        k + 1 < REGIONS ==> row_end(k) <= row(k + 1).0,
{
}

/// The regions can all be reserved: they are whole pages in the firmware's half, and no two of them
/// meet.
pub proof fn lemma_regions_apart(i: int, j: int)
    requires
        0 <= i < j < REGIONS,
    ensures
        region(i).address % 0x4000 == 0,
        region(i).size % 0x4000 == 0,
        0 < region(i).size,
        FIRMWARE_START <= region(i).address,
        region(j).address + region(j).size <= FIRMWARE_END,
        region(i).address + region(i).size <= region(j).address,
    decreases j - i,
{
    lemma_row(i);
    lemma_row(j);
    if i + 1 < j {
        lemma_row(i + 1);
        lemma_regions_apart(i + 1, j);
    }
}

/// Whether a region holds a range.
pub open spec fn row_covers(k: int, va: int, len: int) -> bool {
    0 <= k < REGIONS && row(k).0 <= va && va + len <= row_end(k)
}

/// Whether a range lies in a reserved region.
pub open spec fn covered(va: int, len: int) -> bool {
    exists|k: int| #[trigger] row_covers(k, va, len)
}

/// Whether all writes of a plan lie in reserved regions.
pub open spec fn all_covered(stores: Seq<Stored>) -> bool {
    forall|i: int| 0 <= i < stores.len() ==> covered((#[trigger] stores[i]).0 as int, stores[i].1.len() as int)
}

/// Adds a write into a reserved region to a plan.
fn put(writes: &mut Vec<Write>, va: u64, source: &[u8])
    requires
        all_covered(plan::stored(old(writes)@)),
        covered(va as int, source@.len() as int),
    ensures
        plan::stored(final(writes)@) == plan::stored(old(writes)@).push((va, source@, false)),
        all_covered(plan::stored(final(writes)@)),
{
    let ghost before = plan::stored(writes@);
    push_write(writes, va, source, false);
    proof {
        let after = plan::stored(writes@);
        assert forall|i: int| 0 <= i < after.len() implies covered(
            (#[trigger] after[i]).0 as int,
            after[i].1.len() as int,
        ) by {
            if i < before.len() {
                assert(after[i] == before[i]);
            }
        }
    }
}

/// Adds the write of a word to a plan.
fn put_word(writes: &mut Vec<Write>, va: u64, value: u32)
    requires
        all_covered(plan::stored(old(writes)@)),
        covered(va as int, 4),
    ensures
        plan::stored(final(writes)@) == plan::stored(old(writes)@).push((va, plan::word(value), false)),
        all_covered(plan::stored(final(writes)@)),
{
    let fields = [w32(0, value)];
    assert(fields@ =~= seq![w32(0, value)]);
    let source: [u8; 4] = encode::<4>(&fields);
    put(writes, va, &source);
}

/// Adds the write of a double word to a plan.
fn put_double(writes: &mut Vec<Write>, va: u64, value: u64)
    requires
        all_covered(plan::stored(old(writes)@)),
        covered(va as int, 8),
    ensures
        plan::stored(final(writes)@) == plan::stored(old(writes)@).push((va, plan::double(value), false)),
        all_covered(plan::stored(final(writes)@)),
{
    let fields = [w64(0, value)];
    assert(fields@ =~= seq![w64(0, value)]);
    let source: [u8; 8] = encode::<8>(&fields);
    put(writes, va, &source);
}

/// The descriptors that the firmware starts from.
pub open spec fn root_stores(bundle: Seq<u8>, region_c: Seq<u8>) -> Seq<Stored> {
    let root = RootPointers::initial();
    seq![
        (ROOT_ADDRESS, bytes::image(0xc8, root.fields()), false),
        (BUNDLE_ADDRESS, bundle, false),
        ((root.status_a + 4) as u64, plan::word(1), false),
        ((root.status_b + 4) as u64, plan::word(1), false),
        (root.region_c, region_c, false),
        (SUPPORT_VERSION, plan::word(1), false),
    ]
}

/// The first of the resume records.
pub open spec fn resume_stores(n: nat) -> Seq<Stored> {
    Seq::new(
        n,
        |i: int| ((RESUME_RECORDS + i * 0x40) as u64, plan::double(0x0000_0070_0000_1822), false),
    )
}

/// Plans the descriptors that the firmware starts from, and the resume records.
pub fn root_plan(bundle: &Vec<u8>, region_c: &Vec<u8>) -> (out: Vec<Write>)
    requires
        bundle@.len() == BUNDLE_SIZE,
        region_c@.len() == 0x4000,
    ensures
        plan::stored(out@) == root_stores(bundle@, region_c@) + resume_stores(96),
        all_covered(plan::stored(out@)),
{
    let mut writes: Vec<Write> = Vec::new();
    let root: RootPointers = RootPointers::bootstrap();
    let image: [u8; 0xc8] = root.encode();
    assert(row_covers(4, ROOT_ADDRESS as int, 0xc8));
    put(&mut writes, ROOT_ADDRESS, &image);
    assert(row_covers(42, BUNDLE_ADDRESS as int, BUNDLE_SIZE as int));
    put(&mut writes, BUNDLE_ADDRESS, bundle.as_slice());
    assert(row_covers(2, root.status_a + 4, 4));
    put_word(&mut writes, root.status_a + 4, 1);
    assert(row_covers(2, root.status_b + 4, 4));
    put_word(&mut writes, root.status_b + 4, 1);
    assert(row_covers(3, root.region_c as int, 0x4000));
    put(&mut writes, root.region_c, region_c.as_slice());
    assert(row_covers(14, SUPPORT_VERSION as int, 4));
    put_word(&mut writes, SUPPORT_VERSION, 1);
    assert(plan::stored(writes@) =~= root_stores(bundle@, region_c@) + resume_stores(0));
    let mut i: u64 = 0;
    while i < 96
        invariant
            i <= 96,
            plan::stored(writes@) == root_stores(bundle@, region_c@) + resume_stores(i as nat),
            all_covered(plan::stored(writes@)),
        decreases 96 - i,
    {
        assert(row_covers(15, RESUME_RECORDS + i * 0x40, 8));
        put_double(&mut writes, RESUME_RECORDS + i * 0x40, 0x0000_0070_0000_1822);
        i += 1;
        assert(plan::stored(writes@) =~= root_stores(bundle@, region_c@) + resume_stores(i as nat));
    }
    writes
}

/// The first pages of a region of the render transport.
pub open spec fn page_stores(a: Addresses, base: u64, n: nat) -> Seq<Stored> {
    Seq::new(
        n,
        |j: int|
            (
                (base + j * 0x4000) as u64,
                bytes::image(0x4000, a.page_fields((base + j * 0x4000) as u64)),
                false,
            ),
    )
}

/// The pages of the first regions of the render transport.
pub open spec fn transport_stores(a: Addresses, regions: Seq<(u64, usize)>, n: nat) -> Seq<Stored>
    decreases n,
{
    if n == 0 {
        seq![]
    } else {
        transport_stores(a, regions, (n - 1) as nat) + page_stores(
            a,
            regions[n - 1].0,
            (regions[n - 1].1 / 0x4000) as nat,
        )
    }
}

/// The first of the support objects, each in a page of its own.
pub open spec fn lease_stores(n: nat) -> Seq<Stored> {
    Seq::new(
        n,
        |i: int|
            {
                let page = (SUPPORT_BASE + i * 0x4000) as u64;
                (
                    page,
                    bytes::image(
                        0x4000,
                        (Addresses { support: page, ..Addresses::initial() }).page_fields(page),
                    ),
                    false,
                )
            },
    )
}

/// Which region of the map is a region of the render transport.
spec fn transport_row(i: int) -> int {
    if i == 0 {
        54
    } else if i == 1 {
        21
    } else if i == 2 {
        22
    } else if i == 3 {
        23
    } else if i == 4 {
        53
    } else if i == 5 {
        55
    } else if i == 6 {
        56
    } else if i == 7 {
        49
    } else {
        50
    }
}

/// Plans the pages of the render transport and of the support objects.
pub fn transport_plan() -> (out: Vec<Write>)
    ensures
        plan::stored(out@) == transport_stores(
            Addresses::initial(),
            Addresses::initial().regions_of(),
            9,
        ) + lease_stores(64),
        all_covered(plan::stored(out@)),
{
    let mut writes: Vec<Write> = Vec::new();
    let a: Addresses = Addresses::bootstrap();
    let regions: [(u64, usize); 9] = a.private_regions();
    assert(plan::stored(writes@) =~= transport_stores(a, regions@, 0));
    let mut n: usize = 0;
    while n < 9
        invariant
            n <= 9,
            a == Addresses::initial(),
            regions@ == a.regions_of(),
            plan::stored(writes@) == transport_stores(a, regions@, n as nat),
            all_covered(plan::stored(writes@)),
        decreases 9 - n,
    {
        let (base, size): (u64, usize) = regions[n];
        let count: usize = size / 0x4000;
        proof {
            let k = transport_row(n as int);
            assert(row(k).0 == base && row(k).1 == size && size % 0x4000 == 0 && size <= 0x1c000);
        }
        let ghost done = plan::stored(writes@);
        assert(done + page_stores(a, base, 0) =~= done);
        let mut j: usize = 0;
        while j < count
            invariant
                j <= count,
                n < 9,
                size == count * 0x4000,
                size <= 0x1c000,
                a == Addresses::initial(),
                base % 0x4000 == 0,
                row(transport_row(n as int)).0 == base,
                row(transport_row(n as int)).1 == size,
                base + size <= u64::MAX,
                plan::stored(writes@) == done + page_stores(a, base, j as nat),
                all_covered(plan::stored(writes@)),
            decreases count - j,
        {
            let va: u64 = base + j as u64 * 0x4000;
            let mut page: Vec<u8> = zeroed(0x4000);
            let filled: Option<()> = a.private_page(va, page.as_mut_slice());
            assert(filled is Some);
            assert(row_covers(transport_row(n as int), va as int, 0x4000));
            put(&mut writes, va, page.as_slice());
            j += 1;
            assert(plan::stored(writes@) =~= done + page_stores(a, base, j as nat));
        }
        n += 1;
        assert(plan::stored(writes@) == transport_stores(a, regions@, n as nat));
    }
    let ghost done = plan::stored(writes@);
    assert(done + lease_stores(0) =~= done);
    let mut i: u64 = 0;
    while i < 64
        invariant
            i <= 64,
            a == Addresses::initial(),
            plan::stored(writes@) == done + lease_stores(i as nat),
            all_covered(plan::stored(writes@)),
        decreases 64 - i,
    {
        let mut lease: Addresses = a;
        lease.support = SUPPORT_BASE + i * 0x4000;
        let mut page: Vec<u8> = zeroed(0x4000);
        let filled: Option<()> = lease.private_page(lease.support, page.as_mut_slice());
        assert(filled is Some);
        assert(row_covers(57, lease.support as int, 0x4000));
        put(&mut writes, lease.support, page.as_slice());
        i += 1;
        assert(plan::stored(writes@) =~= done + lease_stores(i as nat));
    }
    writes
}

/// The opening queue, which holds the opening barrier twice.
pub open spec fn boot_queue_stores() -> Seq<Stored> {
    let boot = Queue {
        pointers: BOOT_POINTERS,
        ring: BOOT_RING,
        jobs: BOOT_JOBS,
        private: (BOOT_QUEUE + 0xb0) as u64,
        context: BOOT_CONTEXT,
        uuid: 1,
    };
    seq![
        (BOOT_POINTERS, bytes::image(0x60, seq![w32(0x40, 2), w32(0x50, 0x500)]), false),
        (BOOT_JOBS, bytes::image(0x18, seq![w64(8, BOOT_JOBS)]), false),
        (
            BOOT_CONTEXT,
            bytes::image(
                0x40,
                seq![bytes::w16(0, 0xffff), bytes::w8(5, 1), bytes::w8(0x26, 2), bytes::w8(0x33, 0xff)],
            ),
            false,
        ),
        (BOOT_QUEUE, bytes::image(0xb0, boot.fields()), false),
        (BOOT_BARRIER, bytes::image(0x40, queue::barrier_fields(STAMP, 0, 0, 1, 1)), false),
        (BOOT_RING, plan::double(BOOT_BARRIER), false),
        ((BOOT_RING + 8) as u64, plan::double(BOOT_BARRIER), false),
    ]
}

/// Plans the opening queue.
pub fn boot_queue_plan() -> (out: Vec<Write>)
    ensures
        plan::stored(out@) == boot_queue_stores(),
        all_covered(plan::stored(out@)),
{
    let mut writes: Vec<Write> = Vec::new();
    let cursors: [u8; 0x60] = pointers(0x500, 2);
    assert(row_covers(1, BOOT_POINTERS as int, 0x60));
    put(&mut writes, BOOT_POINTERS, &cursors);
    let list: [u8; 0x18] = jobs(BOOT_JOBS);
    assert(row_covers(0, BOOT_JOBS as int, 0x18));
    put(&mut writes, BOOT_JOBS, &list);
    let idle: [u8; 0x40] = context();
    assert(row_covers(44, BOOT_CONTEXT as int, 0x40));
    put(&mut writes, BOOT_CONTEXT, &idle);
    let boot: Queue = Queue {
        pointers: BOOT_POINTERS,
        ring: BOOT_RING,
        jobs: BOOT_JOBS,
        private: BOOT_QUEUE + 0xb0,
        context: BOOT_CONTEXT,
        uuid: 1,
    };
    let image: [u8; 0xb0] = boot.encode();
    assert(row_covers(26, BOOT_QUEUE as int, 0xb0));
    put(&mut writes, BOOT_QUEUE, &image);
    let item: [u8; 0x40] = barrier(STAMP, 0, 0, 1, 1);
    assert(row_covers(46, BOOT_BARRIER as int, 0x40));
    put(&mut writes, BOOT_BARRIER, &item);
    assert(row_covers(27, BOOT_RING as int, 8));
    put_double(&mut writes, BOOT_RING, BOOT_BARRIER);
    assert(row_covers(27, BOOT_RING + 8, 8));
    put_double(&mut writes, BOOT_RING + 8, BOOT_BARRIER);
    assert(plan::stored(writes@) =~= boot_queue_stores());
    writes
}

/// What is published as soon as the firmware space is synchronized: the support block of the compute
/// namespace and, if the firmware is to be traced, its trace mask.
pub fn late_plan(trace: bool) -> (out: Vec<Write>)
    ensures
        plan::stored(out@) == seq![
            (compute::SUPPORT, bytes::image(0x100, compute::support_fields()), true),
        ] + if trace {
            seq![(RootPointers::initial().region_c, plan::word(u32::MAX), true)]
        } else {
            seq![]
        },
        all_covered(plan::stored(out@)),
{
    let mut writes: Vec<Write> = Vec::new();
    let block: [u8; 0x100] = compute::support();
    push_write(&mut writes, compute::SUPPORT, &block, true);
    assert(row_covers(51, compute::SUPPORT as int, 0x100));
    if trace {
        push_word(&mut writes, RootPointers::bootstrap().region_c, u32::MAX);
        assert(row_covers(3, RootPointers::initial().region_c as int, 4));
    }
    assert(plan::stored(writes@) =~= seq![
        (compute::SUPPORT, bytes::image(0x100, compute::support_fields()), true),
    ] + if trace {
        seq![(RootPointers::initial().region_c, plan::word(u32::MAX), true)]
    } else {
        seq![]
    });
    writes
}

/// The apertures of a window of registers. The memory controllers lie one behind the other for the
/// firmware, wherever they are.
pub open spec fn window_apertures(r: Register, mcc: Seq<u64>) -> Seq<Aperture> {
    let prot = if r.flags & 2 != 0 {
        prot_fw_mmio_rw()
    } else {
        prot_fw_mmio_ro()
    };
    if r.slot == 3 {
        Seq::new(
            mcc.len(),
            |i: int|
                Aperture {
                    address: (r.address + i * r.stride) as u64,
                    physical: mcc[i],
                    size: r.stride as u64,
                    prot,
                },
        )
    } else {
        let offset = r.physical as int % 0x4000;
        seq![
            Aperture {
                address: (r.address - offset) as u64,
                physical: (r.physical - offset) as u64,
                size: ((offset + r.size + 0x3fff) / 0x4000 * 0x4000) as u64,
                prot,
            },
        ]
    }
}

/// The apertures of the first windows.
pub open spec fn windows_apertures(registers: Seq<Register>, mcc: Seq<u64>, n: nat) -> Seq<Aperture>
    decreases n,
{
    if n == 0 {
        seq![]
    } else {
        windows_apertures(registers, mcc, (n - 1) as nat) + window_apertures(registers[n - 1], mcc)
    }
}

/// The pages of the cursors of the work channels. They are shared, unlike other registers.
pub open spec fn cursor_apertures() -> Seq<Aperture> {
    seq![
        Aperture {
            address: 0xffff_fc20_0002_0000,
            physical: 0x3_00d6_0000,
            size: 0x4000,
            prot: prot_fw_shared_ro(),
        },
        Aperture {
            address: 0xffff_fc20_0002_8000,
            physical: 0x3_00d6_4000,
            size: 0x4000,
            prot: prot_fw_shared_rw(),
        },
    ]
}

impl Platform {
    /// The apertures that the firmware gets: the windows of registers and the cursors of the channels.
    pub fn apertures(&self) -> (out: Vec<Aperture>)
        requires
            self.wf(),
        ensures
            out@ == windows_apertures(self.registers@, self.mcc@, 18) + cursor_apertures(),
    {
        let mut out: Vec<Aperture> = Vec::new();
        let mut n: usize = 0;
        while n < 18
            invariant
                n <= 18,
                self.wf(),
                out@ == windows_apertures(self.registers@, self.mcc@, n as nat),
            decreases 18 - n,
        {
            let r: Register = self.registers[n];
            proof {
                self.lemma_window_room(n as int);
            }
            let prot: Prot = if r.flags & 2 != 0 {
                prot_fw_mmio_rw()
            } else {
                prot_fw_mmio_ro()
            };
            let ghost done = out@;
            if r.slot == 3 {
                let mut i: usize = 0;
                assert(done + window_apertures(r, self.mcc@).take(0) =~= done);
                while i < self.mcc.len()
                    invariant
                        i <= self.mcc@.len() <= 32,
                        r.slot == 3,
                        r.address + 32 * r.stride <= u64::MAX,
                        prot == if r.flags & 2 != 0 {
                            prot_fw_mmio_rw()
                        } else {
                            prot_fw_mmio_ro()
                        },
                        out@ == done + window_apertures(r, self.mcc@).take(i as int),
                    decreases self.mcc@.len() - i,
                {
                    assert(i * r.stride <= 32 * r.stride) by (nonlinear_arith)
                        requires
                            i <= 32,
                    ;
                    out.push(
                        Aperture {
                            address: r.address + i as u64 * r.stride as u64,
                            physical: self.mcc[i],
                            size: r.stride as u64,
                            prot,
                        },
                    );
                    i += 1;
                    assert(out@ =~= done + window_apertures(r, self.mcc@).take(i as int));
                }
                assert(window_apertures(r, self.mcc@).take(i as int) =~= window_apertures(r, self.mcc@));
            } else {
                let offset: u64 = r.physical % 0x4000;
                out.push(
                    Aperture {
                        address: r.address - offset,
                        physical: r.physical - offset,
                        size: (offset + r.size as u64 + 0x3fff) / 0x4000 * 0x4000,
                        prot,
                    },
                );
                assert(out@ =~= done + window_apertures(r, self.mcc@));
            }
            n += 1;
        }
        let ghost done = out@;
        out.push(
            Aperture {
                address: 0xffff_fc20_0002_0000,
                physical: 0x3_00d6_0000,
                size: 0x4000,
                prot: prot_fw_shared_ro(),
            },
        );
        out.push(
            Aperture {
                address: 0xffff_fc20_0002_8000,
                physical: 0x3_00d6_4000,
                size: 0x4000,
                prot: prot_fw_shared_rw(),
            },
        );
        assert(out@ =~= done + cursor_apertures());
        out
    }
}

/// The apertures of the cursors meet no region.
pub proof fn lemma_cursors_clear(k: int, i: int)
    requires
        0 <= k < REGIONS,
        0 <= i < 2,
    ensures
        ({
            let cursor = cursor_apertures()[i];
            row_end(k) <= cursor.address || cursor.address + cursor.size <= row(k).0
        }),
{
}

/// The apertures of the windows of registers are whole pages between the two limits for windows, and
/// meet no region.
pub proof fn lemma_windows_clear(board: Platform, n: int, i: int, k: int)
    requires
        board.wf(),
        0 <= n < 18,
        0 <= i < window_apertures(board.registers@[n], board.mcc@).len(),
        0 <= k < REGIONS,
    ensures
        ({
            let aperture = window_apertures(board.registers@[n], board.mcc@)[i];
            &&& aperture.address % 0x4000 == 0
            &&& aperture.size % 0x4000 == 0
            &&& 0 < aperture.size
            &&& platform::REGISTER_BASE <= aperture.address
            &&& aperture.address + aperture.size <= platform::REGISTER_LIMIT
            &&& row_end(k) <= aperture.address
        }),
{
    board.lemma_window_room(n);
    lemma_row(k);
    let r = board.registers@[n];
    if r.slot == 3 {
        assert(i * r.stride + r.stride <= 32 * r.stride) by (nonlinear_arith)
            requires
                0 <= i < 32,
        ;
        assert((r.address + i * 0x18000) % 0x4000 == 0);
    }
}

} // verus!
