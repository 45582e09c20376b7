//! What holds of places that are fixed or derived: private storage, the first configuration, and page tables.
use crate::boot;
use crate::boot::BootInputs;
use crate::error::Error;
use crate::fw;
use crate::fw::MainConfig;
use crate::operands;
use crate::operands::OperandPool;
use crate::pgtable;
use crate::pgtable::UatPageTable;
use crate::platform;
use crate::platform::BoardInputs;
use crate::prot;
use crate::prot::Prot;
use crate::provision;
use crate::ranges;
use crate::render::{Addresses, Parameters};
use crate::tables;
use crate::tables::{TableMemory, Tree};
use crate::walk;
use crate::walk::Edit;
use vstd::prelude::*;

verus! {

/// A pool lies behind the private storage: a directory, a table and 24 buffers, with room between them.
pub proof fn lemma_pool_placed(start: u64)
    ensures
        ({
            let (directory, table, buffer) = OperandPool::at_start(start as int);
            &&& directory == start + 0x35d_8000
            &&& directory >= start + 0x35d_4000
            &&& table == directory + 0x40_8000
            &&& buffer == table + 0x1_8000
        }),
{
}

/// A pool ends behind its 24 buffers, and a block starts at the next multiple of 0x8000.
pub proof fn lemma_pool_end(pool: OperandPool, address: int)
    requires
        0 <= address,
    ensures
        pool.end_of() == pool.buffer + 24 * 0x20_8000,
        operands::round_block(address) % 0x8000 == 0,
        address <= operands::round_block(address) < address + 0x8000,
{
}

/// The aliases of a pool: what the accelerator sees of the private storage at fixed places, and in the pool. Slots,
/// the page list and cycles come first, then the directory and the table, eleven blocks, and 24 buffers.
pub proof fn lemma_aliases(pool: OperandPool, i: int)
    requires
        0 <= i < 24,
        pool.buffer + 24 * 0x20_8000 <= u64::MAX,
    ensures
        operands::alias_of(pool, 0) == (0x10_0008_0000u64, 0x3_c000u64, 0x4000usize),
        operands::alias_of(pool, 1) == (0x10_0025_8000u64, 0x345_0000u64, 0x1_c000usize),
        operands::alias_of(pool, 2) == (0x10_0024_0000u64, 0x346_c000u64, 0x4000usize),
        operands::alias_of(pool, 3) == (pool.directory, 0x4_0000u64, 0x40_0000usize),
        operands::alias_of(pool, 4) == (pool.table, 0x44_0000u64, 0x1_0000usize),
        i < 11 ==> operands::alias_of(pool, 5 + i).0 == 0x10_0008_8000 + 0x2_8000 * i,
        i < 11 ==> operands::alias_of(pool, 5 + i).1 == 0x347_0000 + 0x2_0000 * i,
        i < 11 ==> operands::alias_of(pool, 5 + i).2 == 0x2_0000,
        operands::alias_of(pool, 16 + i).0 == pool.buffer + 0x20_8000 * i,
        operands::alias_of(pool, 16 + i).1 == 0x45_0000 + 0x20_0000 * i,
        operands::alias_of(pool, 16 + i).2 == 0x20_0000,
{
}

/// A carveout holds the private storage exactly when it starts on a page within reach of the context base, the
/// storage ends within reach, and the pool behind it ends inside.
pub proof fn lemma_private_fits(start: u64, end: u64)
    ensures
        Parameters::private_fits(start, end) <==> {
            &&& start % 0x4000 == 0
            &&& 0x10_0000_0000 <= start
            &&& start + 0x35d_4000 <= 0x11_0000_0000
            &&& start + 0x39f_8000 + 24 * 0x20_8000 <= end
        },
{
}

/// The private storage of a render starts with the tilemap; its other parts follow at fixed distances, and no other
/// parameter changes with it.
pub proof fn lemma_private_placed(p: Parameters, start: u64)
    requires
        start + 0x35d_4000 <= u64::MAX,
    ensures
        ({
            let q = p.with_private(start);
            &&& q.context_base == 0x10_0000_0000
            &&& q.tilemap == start
            &&& q.tpc == start + 0x2_8000
            &&& q.deflake_3 == start + 0x2_c000
            &&& q.deflake_2 == q.deflake_3 + 0x20
            &&& q.deflake_1 == q.deflake_3 + 0x2a0
            &&& q.ta_status == start + 0x3_0240
            &&& q.fragment_status == start + 0x3_42c0
            &&& q.aux_fb == start + 0x3_8000
            &&& q.heapmeta == start + 0x35d_0000
            &&& q == (Parameters {
                context_base: q.context_base,
                tilemap: q.tilemap,
                tpc: q.tpc,
                deflake_1: q.deflake_1,
                deflake_2: q.deflake_2,
                deflake_3: q.deflake_3,
                ta_status: q.ta_status,
                fragment_status: q.fragment_status,
                aux_fb: q.aux_fb,
                heapmeta: q.heapmeta,
                ..p
            })
        }),
{
}

/// The regions of a placement: a page for each of its parts, but more for the lists of blocks and of pages.
pub proof fn lemma_placement_regions(a: Addresses)
    ensures
        ({
            let r = a.regions_of();
            &&& r.len() == 9
            &&& r[0] == (a.buffer_manager, 0x4000usize)
            &&& r[1] == (a.buffer_manager_block_control, 0x4000usize)
            &&& r[2] == (a.buffer_manager_scene_list, 0x4000usize)
            &&& r[3] == (a.buffer_manager_counter, 0x4000usize)
            &&& r[4].0 == a.buffer_thing - a.buffer_thing % 0x4000 && r[4].1 == 0x4000
            &&& r[5] == (a.buffer_manager_block_list, 0x1_0000usize)
            &&& r[6] == (a.buffer_manager_page_list, 0x1_c000usize)
            &&& r[7].0 == a.event_control - a.event_control % 0x4000 && r[7].1 == 0x4000
            &&& r[8] == (a.support, 0x4000usize)
        }),
{
}

/// Publications of a placement count on: counters by two, stamps by 0x100, and scenes around a ring of 80.
pub proof fn lemma_publications(a: Addresses, ordinal: u64)
    requires
        a.tiling_counter + ordinal * 2 <= u64::MAX,
        a.fragment_counter + ordinal * 2 <= u64::MAX,
        a.tiling_stamp + ordinal * 0x100 <= u64::MAX,
        a.fragment_stamp + ordinal * 0x100 <= u64::MAX,
        a.buffer_thing <= 0xffff_ffff_ffff_0000,
    ensures
        ({
            let b = a.published(ordinal);
            &&& b.tiling_counter - a.tiling_counter == 2 * ordinal
            &&& b.fragment_counter - a.fragment_counter == 2 * ordinal
            &&& b.tiling_stamp - a.tiling_stamp == 0x100 * ordinal
            &&& b.fragment_stamp - a.fragment_stamp == 0x100 * ordinal
            &&& b.buffer_thing == a.buffer_thing - a.buffer_thing % 0x4000 + 0x80 * ((ordinal + 1) % 80)
            &&& b == (Addresses {
                tiling_counter: b.tiling_counter,
                fragment_counter: b.fragment_counter,
                tiling_stamp: b.tiling_stamp,
                fragment_stamp: b.fragment_stamp,
                buffer_thing: b.buffer_thing,
                ..a
            })
        }),
{
}

/// A render can be encoded exactly when its sizes are those that the hardware has, its samplers are named and counted
/// together, and all that is named by an offset from the context base lies within four gigabytes of it.
pub proof fn lemma_render_valid(p: Parameters)
    ensures
        p.is_valid() <==> {
            let near = |address: u64| 0 <= address - p.context_base < 0x1_0000_0000;
            &&& 0 < p.width <= 0x4000 && 0 < p.height <= 0x4000 && 0 < p.layers <= 0x800
            &&& p.utile_width == 32 || p.utile_width == 16
            &&& p.utile_height == 32 || p.utile_height == 16
            &&& p.utile_height <= p.utile_width
            &&& p.samples == 1 || p.samples == 2 || p.samples == 4
            &&& p.tib_blocks <= 64
            &&& p.queue_item_index < 0x1_0000
            &&& p.sampler_array == 0 <==> p.sampler_count == 0
            &&& p.sampler_array % 8 == 0
            &&& p.sampler_count < 0xffff_ffff
            &&& near(p.tilemap) && near(p.heapmeta) && near(p.tpc) && near(p.encoder)
            &&& near(p.deflake_1) && near(p.deflake_2) && near(p.deflake_3)
            &&& p.layermeta != 0 ==> near(p.layermeta)
        },
        p.layermeta == 0 ==> p.layer_metadata_of() == p.heapmeta,
        p.layermeta != 0 ==> p.layer_metadata_of() == p.layermeta,
{
}

/// The first configuration names its parts by their places in the bundle, the regions of the firmware, and the channels
/// behind those for submission: control, events and logs.
pub proof fn lemma_first_config(c: MainConfig, bundle: u64)
    requires
        bundle + 0x1_c240 <= u64::MAX,
        c.is_bootstrap(bundle),
    ensures
        c.hwdata == bundle,
        c.repeated == bundle + 0xb980,
        c.unaligned == bundle + 0x5380,
        c.header == 0xffff_fc20_0002_0068,
        c.addresses@[0] == 0,
        c.addresses@[1] == bundle + 0x2680,
        c.addresses@[2] == bundle + 0x32c0,
        c.addresses@[3] == bundle + 0x4540,
        c.addresses@[4] == bundle + 0xb900,
        c.regions@[0] == 0xffff_fc20_c051_8000,
        c.regions@[1] == 0x70_0027_8000,
        c.regions@[2] == 0xffff_fc20_0012_8000,
        c.regions@[3] == 0x70_0028_0000,
        c.regions@[4] == 0xffff_fc20_0013_0000,
        c.regions@[5] == 0,
        c.channels@[12].ring == 0xffff_fc20_c04d_8000 + 0x1_df00,
        c.channels@[12].state@[0] == 0xffff_fc20_0002_80c0,
        c.channels@[12].state@[1] == 0xffff_fc20_0002_80c8,
        c.channels@[12].state@[2] == 0xffff_fc20_0002_0060,
        c.channels@[13].ring == 0xffff_fc20_0004_3c40,
        c.channels@[13].state@[0] == 0xffff_fc20_0003_f1c0,
        c.channels@[13].state@[1] == 0xffff_fc20_0003_f440,
        c.channels@[13].state@[2] == 0xffff_fc20_0003_f200,
        c.channels@[14].ring == 0xffff_fc20_000e_ec40,
        c.channels@[14].state@[0] == 0xffff_fc20_0003_f3c0,
        c.channels@[14].state@[1] == 0xffff_fc20_000e_5c40,
        c.channels@[14].state@[2] == 0xffff_fc20_0003_f400,
        c.channels@[15].ring == 0,
        c.channels@[15].state@[0] == 0xffff_fc20_0006_c440,
        c.channels@[16].ring == 0,
        c.channels@[16].state@[0] == 0,
{
    assert(c.channels@[12].state@ == fw::bootstrap_channel(bundle, 12).0 && c.channels@[13].state@
        == fw::bootstrap_channel(bundle, 13).0 && c.channels@[14].state@ == fw::bootstrap_channel(bundle, 14).0
        && c.channels@[15].state@ == fw::bootstrap_channel(bundle, 15).0 && c.channels@[16].state@
        == fw::bootstrap_channel(bundle, 16).0);
}

/// The regions of the queues of a client: a private page for each descriptor, and two shared pages behind it for its
/// cursors and its ring.
pub proof fn lemma_lane_list(base: u64, stage: int)
    requires
        base + 0x2_4000 <= u64::MAX,
        0 <= stage < 3,
    ensures
        ({
            let r = provision::lane_list(base as int);
            &&& r.len() == 6
            &&& r[2 * stage].address == base + 0xc000 * stage
            &&& r[2 * stage].size == 0x4000
            &&& r[2 * stage].prot == prot::prot_fw_priv_rw()
            &&& r[2 * stage + 1].address == r[2 * stage].address + 0x4000
            &&& r[2 * stage + 1].size == 0x8000
            &&& r[2 * stage + 1].prot == prot::prot_fw_shared_rw()
        }),
{
    assert((2 * stage) / 2 == stage && (2 * stage + 1) / 2 == stage);
}

/// The place of a page in the three levels of tables: 2048 entries each.
pub proof fn lemma_page_place(page: int)
    requires
        tables::in_tree(page),
    ensures
        page == tables::upper(page) * 0x40_0000 + tables::middle(page) * 0x800 + tables::lower(page),
        0 <= tables::middle(page) < 0x800,
        0 <= tables::lower(page) < 0x800,
{
}

/// A dump has exactly the pages of a range that are mapped.
pub proof fn lemma_dumped(t: Tree, base: int, lo: int, hi: int, page: int)
    requires
        0 <= lo <= page < hi,
        0 <= base,
        base + hi * 0x4000 <= u64::MAX,
    ensures
        pgtable::dumped(t, base, lo, hi).contains(pgtable::dump_of(t, base, page)) <==> t.value(page) & 3 == 3,
        forall|k: int|
            0 <= k < pgtable::dumped(t, base, lo, hi).len() ==> base + lo * 0x4000 <= (
            #[trigger] pgtable::dumped(t, base, lo, hi)[k]).iova < base + hi * 0x4000,
    decreases hi - lo,
{
    let all = pgtable::dumped(t, base, lo, hi);
    let item = pgtable::dump_of(t, base, page);
    let before = pgtable::dumped(t, base, lo, hi - 1);
    lemma_dumped_below(t, base, lo, hi - 1);
    assert(item.iova == base + page * 0x4000);
    if page < hi - 1 {
        lemma_dumped(t, base, lo, hi - 1, page);
    }
    if tables::is_valid(t.value(hi - 1)) {
        let last = pgtable::dump_of(t, base, hi - 1);
        assert(all == before.push(last));
        assert(all[before.len() as int] == last);
        assert(last.iova == base + (hi - 1) * 0x4000);
        assert forall|k: int| 0 <= k < before.len() implies #[trigger] all[k] == before[k] by {}
        if page < hi - 1 {
            if before.contains(item) {
                let j = choose|j: int| 0 <= j < before.len() && before[j] == item;
                assert(all[j] == item);
            }
            if all.contains(item) {
                let j = choose|j: int| 0 <= j < all.len() && all[j] == item;
                assert(j < before.len());
                assert(before[j] == item);
            }
        }
    } else if page == hi - 1 && all.contains(item) {
        let j = choose|j: int| 0 <= j < all.len() && all[j] == item;
        assert(before[j].iova < base + (hi - 1) * 0x4000);
    }
}

proof fn lemma_dumped_below(t: Tree, base: int, lo: int, hi: int)
    requires
        0 <= lo,
        0 <= base,
        base + hi * 0x4000 <= u64::MAX,
    ensures
        forall|k: int|
            0 <= k < pgtable::dumped(t, base, lo, hi).len() ==> base + lo * 0x4000 <= (
            #[trigger] pgtable::dumped(t, base, lo, hi)[k]).iova < base + hi * 0x4000,
    decreases hi - lo,
{
    if lo < hi {
        lemma_dumped_below(t, base, lo, hi - 1);
        let all = pgtable::dumped(t, base, lo, hi);
        let before = pgtable::dumped(t, base, lo, hi - 1);
        assert forall|k: int| 0 <= k < all.len() implies base + lo * 0x4000 <= (#[trigger] all[k]).iova < base + hi
            * 0x4000 by {
            if k < before.len() {
                assert(all[k] == before[k]);
            }
        }
    }
}

/// A dump gives the frame of memory, cached or not, and of nothing else.
pub proof fn lemma_dump_frame(t: Tree, base: int, page: int)
    ensures
        ({
            let d = pgtable::dump_of(t, base, page);
            let attributes = (t.value(page) & 0x1c) >> 2;
            &&& d.pte == t.value(page)
            &&& d.frame is Some <==> attributes == 0 || attributes == 2
            &&& d.frame is Some ==> d.frame->0 == tables::frame_of(t.value(page), t.oas_mask)
        }),
{
}

/// Giving tables back returns each added table, the last one first, and then a root that is owned.
pub proof fn lemma_given_back(table: UatPageTable, k: int)
    requires
        0 <= k < table.owned_tables@.len(),
    ensures
        table.given_back()[k] == table.owned_tables@[table.owned_tables@.len() - 1 - k].phys,
        table.ttb_owned ==> table.given_back().len() == table.owned_tables@.len() + 1 && table.given_back().last()
            == table.ttb,
        !table.ttb_owned ==> table.given_back().len() == table.owned_tables@.len(),
{
}

/// A walk that may add tables comes to every page of a range without foreign entries, so that page `q` of it is the
/// one at its distance from the start.
pub proof fn lemma_every_page_visited(t: Tree, lo: int, q: int)
    requires
        0 <= lo <= q,
        forall|p: int| lo <= p < q ==> !#[trigger] t.blocked(p),
    ensures
        walk::visits(t, true, lo, q) == q - lo,
    decreases q - lo,
{
    if lo < q {
        assert(!t.blocked(q - 1));
        lemma_every_page_visited(t, lo, q - 1);
    }
}

/// After a range is mapped to frames that follow each other, each page of it shows the frame at its distance, and each
/// page outside shows what it did.
pub proof fn lemma_mapped_in_order(t0: Tree, t: Tree, phys: u64, bits: u64, lo: int, hi: int, q: int)
    requires
        0 <= lo <= hi,
        tables::in_tree(q),
        forall|p: int| lo <= p < hi ==> !#[trigger] t0.blocked(p),
        walk::outcome(t0, t, true, Edit::Install { phys, bits, one_page: false }, lo, hi),
    ensures
        lo <= q < hi ==> t.value(q) == ((phys + 0x4000 * (q - lo)) as u64) | bits,
        !(lo <= q < hi) ==> t.value(q) == t0.value(q),
{
    if lo <= q < hi {
        assert(!t0.blocked(q));
        lemma_every_page_visited(t0, lo, q);
    }
}

/// After a range is unmapped, no page of it is mapped, and each page outside shows what it did.
pub proof fn lemma_cleared(t0: Tree, t: Tree, lo: int, hi: int, q: int)
    requires
        tables::in_tree(q),
        walk::outcome(t0, t, false, Edit::Clear, lo, hi),
    ensures
        lo <= q < hi ==> t.value(q) == 0,
        !(lo <= q < hi) ==> t.value(q) == t0.value(q),
{
}

/// An address translates to the frame of its page and its own place in it, and to nothing where the page is not mapped.
pub proof fn lemma_translation(table: UatPageTable, mem: TableMemory, iova: u64)
    requires
        tables::frame_of(table.tree(mem).value(table.first_page(iova)), table.oas_mask) + 0x4000 <= u64::MAX,
    ensures
        ({
            let entry = table.tree(mem).value(table.first_page(iova));
            &&& table.translation(mem, iova) is Some <==> entry & 3 == 3
            &&& entry & 3 == 3 ==> table.translation(mem, iova)->0 == (entry & table.oas_mask & !0x3fffu64) + iova
                % 0x4000
        }),
{
}

/// The frames of a pool are used from its end, one for each page of the ranges in their order.
pub proof fn lemma_backed_entry(
    ranges_: Seq<(u64, u64)>,
    n: int,
    k: int,
    frames: Seq<u64>,
    access: Prot,
    page: int,
    before: u64,
)
    requires
        0 <= k < n <= ranges_.len(),
    ensures
        ranges::in_range(ranges_[k], page) && (forall|j: int|
            k < j < n ==> !ranges::in_range(#[trigger] ranges_[j], page)) ==> ranges::backed_entry(
            ranges_,
            n,
            frames,
            access,
            page,
            before,
        ) == frames[frames.len() - 1 - (ranges::pages_before(ranges_, k) + (page - ranges_[k].0 as int / 0x4000))] | (
        prot::pte_of(access) | 0x803),
        (forall|j: int| 0 <= j < n ==> !ranges::in_range(#[trigger] ranges_[j], page)) ==> ranges::backed_entry(
            ranges_,
            n,
            frames,
            access,
            page,
            before,
        ) == before,
    decreases n,
{
    if n > 1 {
        if k < n - 1 {
            lemma_backed_entry(ranges_, n - 1, k, frames, access, page, before);
        } else {
            lemma_backed_entry(ranges_, n - 1, n - 2, frames, access, page, before);
        }
    } else {
        assert(ranges::backed_entry(ranges_, 0, frames, access, page, before) == before);
    }
}

/// The firmware is started exactly when its build is the one that is known, its own memory is where it has to be, and
/// the regions of the loader are whole pages that do not meet.
pub proof fn lemma_started(inputs: BootInputs)
    ensures
        boot::boot_refusal(inputs) is None <==> {
            &&& inputs.firmware is Ok && inputs.firmware->Ok_0@ == boot::firmware_build()
            &&& inputs.private_vm is Ok && inputs.private_vm->Ok_0@ == seq![
                0xffff_fc00_0000_0000u64,
                0x20_0000_0000u64,
            ]
            &&& boot::regions_refusal(inputs.regions@, 5) is None
        },
        inputs.firmware is Ok && inputs.firmware->Ok_0@ != boot::firmware_build() ==> boot::boot_refusal(inputs) == Some(
            Error::ENOTSUPP,
        ),
{
}

/// The regions of the loader are taken exactly when each could be read, each is made of whole pages and not at zero,
/// and none meets one before it.
pub proof fn lemma_loader_regions(regions: Seq<Result<(u64, u64), Error>>, n: int)
    requires
        0 <= n <= regions.len(),
    ensures
        boot::regions_refusal(regions, n) is None <==> forall|i: int|
            0 <= i < n ==> (#[trigger] boot::region_refusal(regions, i)) is None,
    decreases n,
{
    if n > 0 {
        lemma_loader_regions(regions, n - 1);
        assert(boot::region_refusal(regions, n - 1) is None || boot::region_refusal(regions, n - 1) is Some);
    }
}

/// The build that is known is named mBoot-18000.161.10, and ends with a zero.
pub proof fn lemma_build_name()
    ensures
        boot::firmware_build().len() == 19,
        boot::firmware_build()[0] == 'm' as u8,
        boot::firmware_build()[1] == 'B' as u8,
        boot::firmware_build()[2] == 'o' as u8,
        boot::firmware_build()[3] == 'o' as u8,
        boot::firmware_build()[4] == 't' as u8,
        boot::firmware_build()[5] == '-' as u8,
        boot::firmware_build()[6] == '1' as u8,
        boot::firmware_build()[7] == '8' as u8,
        boot::firmware_build()[8] == '0' as u8,
        boot::firmware_build()[9] == '0' as u8,
        boot::firmware_build()[10] == '0' as u8,
        boot::firmware_build()[11] == '.' as u8,
        boot::firmware_build()[12] == '1' as u8,
        boot::firmware_build()[13] == '6' as u8,
        boot::firmware_build()[14] == '1' as u8,
        boot::firmware_build()[15] == '.' as u8,
        boot::firmware_build()[16] == '1' as u8,
        boot::firmware_build()[17] == '0' as u8,
        boot::firmware_build()[18] == 0,
{
}

/// The sample period is the number of clocks that is given, and where none is, 24000 for each millisecond.
pub proof fn lemma_period(inputs: BoardInputs)
    ensures
        platform::word_of(inputs.sample_clocks, None) is Ok ==> platform::period_of(inputs) == platform::word_of(
            inputs.sample_clocks,
            None,
        ),
        inputs.sample_clocks == Ok::<Option<Vec<u8>>, Error>(None) && platform::word_of(inputs.sample_period, None)
            is Ok && platform::period_of(inputs) is Ok ==> platform::period_of(inputs)->Ok_0 == 24_000
            * platform::word_of(inputs.sample_period, None)->Ok_0,
{
}

/// The second range of the registers: an address of two words, the higher first, and a length of two.
pub proof fn lemma_second_range(reg: Seq<u32>)
    requires
        reg.len() == 8,
    ensures
        platform::second_range(reg).0 / 0x1_0000_0000 == reg[4],
        platform::second_range(reg).0 % 0x1_0000_0000 == reg[5],
        platform::second_range(reg).1 / 0x1_0000_0000 == reg[6],
        platform::second_range(reg).1 % 0x1_0000_0000 == reg[7],
{
}

/// A board is taken only where its ladders are complete and in order, its sample period is a millisecond at least, it
/// has one to ten cores, and its registers can be built.
pub proof fn lemma_board_taken(inputs: BoardInputs)
    requires
        platform::refusal(inputs) is None,
    ensures
        inputs.power is Ok && inputs.power->Ok_0@.len() == 11,
        inputs.freq_a is Ok && inputs.freq_a->Ok_0@.len() == 11,
        inputs.freq_b is Ok && inputs.freq_b->Ok_0@.len() == 11,
        inputs.core_voltage is Ok && inputs.core_voltage->Ok_0@.len() == 11,
        inputs.memory_voltage is Ok && inputs.memory_voltage->Ok_0@.len() == 11,
        inputs.index_a is Ok && inputs.index_a->Ok_0@.len() == 11,
        inputs.index_b is Ok && inputs.index_b->Ok_0@.len() == 11,
        inputs.relative_a is Ok && inputs.relative_a->Ok_0@.len() == 11,
        inputs.relative_b is Ok && inputs.relative_b->Ok_0@.len() == 11,
        inputs.power->Ok_0@[0] == 0,
        inputs.power->Ok_0@[10] > 0,
        forall|i: int, j: int|
            0 <= i < j < 11 ==> #[trigger] inputs.power->Ok_0@[i] <= #[trigger] inputs.power->Ok_0@[j],
        inputs.freq_a->Ok_0@[0] == 0,
        inputs.freq_b->Ok_0@[0] == 0,
        forall|i: int, j: int|
            0 <= i < j < 11 ==> #[trigger] inputs.freq_a->Ok_0@[i] < #[trigger] inputs.freq_a->Ok_0@[j],
        forall|i: int, j: int|
            0 <= i < j < 11 ==> #[trigger] inputs.freq_b->Ok_0@[i] < #[trigger] inputs.freq_b->Ok_0@[j],
        platform::period_of(inputs) is Ok && platform::period_of(inputs)->Ok_0 >= 24_000,
        inputs.core_mask is Ok && 0 < inputs.core_mask->Ok_0 < 0x400,
        inputs.revision is Ok,
        platform::register_refusal(inputs.reg, inputs.irq, inputs.mcc_mask) is None,
{
    let power = inputs.power->Ok_0@;
    let a = inputs.freq_a->Ok_0@;
    let b = inputs.freq_b->Ok_0@;
    assert forall|i: int, j: int| 0 <= i < j < 11 implies #[trigger] power[i] <= #[trigger] power[j] by {
        lemma_climbs(power, i, j);
    }
    assert forall|i: int, j: int| 0 <= i < j < 11 implies #[trigger] a[i] < #[trigger] a[j] by {
        lemma_rises(a, i, j);
    }
    assert forall|i: int, j: int| 0 <= i < j < 11 implies #[trigger] b[i] < #[trigger] b[j] by {
        lemma_rises(b, i, j);
    }
}

proof fn lemma_climbs(values: Seq<u32>, i: int, j: int)
    requires
        0 <= i < j < 11,
        platform::power_ladder(values),
    ensures
        values[i] <= values[j],
    decreases j - i,
{
    assert(values[j - 1] <= values[j - 1 + 1]);
    if i < j - 1 {
        lemma_climbs(values, i, j - 1);
    }
}

proof fn lemma_rises(values: Seq<u32>, i: int, j: int)
    requires
        0 <= i < j < 11,
        platform::frequency_ladder(values),
    ensures
        values[i] < values[j],
    decreases j - i,
{
    assert(values[j - 1] < values[j - 1 + 1]);
    if i < j - 1 {
        lemma_rises(values, i, j - 1);
    }
}

/// The registers can be built exactly when the properties could be read and have their sizes, the interrupt controller
/// and the second range lie where they can, and there is a memory controller.
pub proof fn lemma_registers_taken(
    reg: Result<Vec<u32>, Error>,
    irq: Result<Vec<u8>, Error>,
    mask: Result<Option<Vec<u8>>, Error>,
)
    ensures
        platform::register_refusal(reg, irq, mask) is None <==> {
            &&& reg is Ok && reg->Ok_0@.len() == 8
            &&& irq is Ok && (irq->Ok_0@.len() == 20 || irq->Ok_0@.len() == 40)
            &&& 0x4000 <= platform::irq_address(irq->Ok_0@) < 0x1_0000_0000_0000
            &&& platform::word_of(mask, Some(3)) is Ok && platform::word_of(mask, Some(3))->Ok_0 != 0
            &&& platform::second_range(reg->Ok_0@).1 >= 0x100_8000
            &&& platform::second_range(reg->Ok_0@).0 + 0x100_0000 <= u64::MAX
        },
{
}

} // verus!
