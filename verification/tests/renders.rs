use asahi_m4::bytes::{get16, get32, get64};
use asahi_m4::operands::{fixed_ranges, private_aliases, private_page, OperandPool, CONTEXT_BASE};
use asahi_m4::render::{pack_registers, tagged_page, Addresses, Parameters};

const START: u64 = 0x10_1000_0000;
const END: u64 = 0x10_3000_0000;

fn parameters() -> Parameters {
    let mut p = Parameters::default();
    p.set_private(START, END).unwrap();
    p.width = 64;
    p.height = 48;
    p.layers = 1;
    p.utile_width = 32;
    p.utile_height = 32;
    p.samples = 1;
    p.tib_blocks = 2;
    p.encoder = START + 0x100;
    p
}

#[test]
fn private_storage_is_placed_in_the_carveout() {
    let p = parameters();
    assert_eq!(p.context_base, CONTEXT_BASE);
    assert_eq!(p.tilemap, START);
    assert_eq!(p.heapmeta, START + 0x35d0000);
    assert_eq!(p.tpc, START + 0x28000);
    assert_eq!((p.deflake_1, p.deflake_2, p.deflake_3), (START + 0x2c2a0, START + 0x2c020, START + 0x2c000));
    assert_eq!((p.ta_status, p.fragment_status, p.aux_fb), (START + 0x30240, START + 0x342c0, START + 0x38000));
    let mut q = Parameters::default();
    assert!(q.set_private(START + 0x1000, END).is_none());
    assert!(q.set_private(CONTEXT_BASE - 0x4000, END).is_none());
    assert!(q.set_private(START, START + 0x35d4000).is_none());
    assert!(q.set_private(CONTEXT_BASE + 0xff00_0000, CONTEXT_BASE + 0x2_0000_0000).is_none());
    assert_eq!(q, Parameters::default());
}

#[test]
fn render_validity() {
    let p = parameters();
    assert!(p.valid());
    assert!(!Parameters::default().valid());
    for bad in [
        Parameters { width: 0, ..p },
        Parameters { width: 16385, ..p },
        Parameters { height: 0, ..p },
        Parameters { layers: 2049, ..p },
        Parameters { utile_height: 8, ..p },
        Parameters { utile_width: 16, ..p },
        Parameters { samples: 3, ..p },
        Parameters { tib_blocks: 65, ..p },
        Parameters { queue_item_index: 0x10000, ..p },
        Parameters { sampler_count: 1, ..p },
        Parameters { sampler_array: 4, sampler_count: 1, ..p },
        Parameters { encoder: CONTEXT_BASE - 4, ..p },
        Parameters { encoder: CONTEXT_BASE + 0x1_0000_0000, ..p },
    ] {
        assert!(!bad.valid());
        assert!(bad.tiling_registers().is_none());
        assert!(bad.fragment_registers().is_none());
        assert!(bad.scratch_sizes().is_none());
        assert!(bad.tiling_work(&Addresses::bootstrap()).is_none());
        assert!(bad.fragment_work(&Addresses::bootstrap(), 0, 0).is_none());
    }
}

#[test]
fn geometry_counts_tiles_and_macrotiles() {
    let g = parameters().geometry();
    assert_eq!((g.tiles_x, g.tiles_y), (2, 2));
    assert_eq!((g.size1, g.size2, g.size3), (20, 16, 32));
    assert_eq!((g.x_blocks, g.y_blocks), (0x10_100c, 0x10_100c));
    assert_eq!((g.screen, g.pixels, g.macro_size), (0x1001, 0x002f_003f, 0x4_0004));
    let small = Parameters { utile_width: 16, utile_height: 16, ..parameters() };
    let g = small.geometry();
    assert_eq!((g.size1, g.size3, g.macro_size), (80, 128, 0x8_0008));
    let wide = Parameters { width: 16384, height: 16384, ..parameters() };
    let g = wide.geometry();
    assert_eq!((g.tiles_x, g.size2), (512, 128 * 128));
}

#[test]
fn scratch_grows_with_layers() {
    assert_eq!(parameters().scratch_sizes(), Some((0x4000, 0x4000)));
    let layered = Parameters { layers: 100, ..parameters() };
    assert_eq!(layered.scratch_sizes(), Some((0x20000, 0x34000)));
}

#[test]
fn tile_memory_is_tagged_for_multisampling() {
    let p = parameters();
    assert_eq!(p.tib_encoding(), 2);
    assert_eq!(Parameters { tib_blocks: 64, ..p }.tib_encoding(), 0);
    assert_eq!(Parameters { samples: 2, tib_blocks: 32, ..p }.tib_encoding(), 0x2_0020);
    assert_eq!(Parameters { samples: 4, tib_blocks: 33, ..p }.tib_encoding(), 0x8_0021);
}

#[test]
fn layer_metadata_defaults_to_the_heap() {
    let p = parameters();
    assert_eq!(p.layer_metadata(), p.heapmeta);
    assert_eq!(Parameters { layermeta: START + 0x80, ..p }.layer_metadata(), START + 0x80);
    assert_eq!(p.ta_offset(START), 0x1000_0000);
}

fn value_of(records: &[(u32, u64)], number: u32) -> u64 {
    records.iter().find(|r| r.0 == number).unwrap().1
}

#[test]
fn tiling_registers_are_ordered() {
    let r = parameters().tiling_registers().unwrap();
    assert_eq!(r[0], (0x01748, 1));
    assert_eq!(r[70], (0x01740, 1));
    assert_eq!(value_of(&r, 0x1c039), 0x1000_0000);
    assert_eq!(value_of(&r, 0x1c031), 0x135d_0000 | 1 << 63);
    assert_eq!(value_of(&r, 0x10169), 0x8000);
    assert_eq!(value_of(&r, 0x1c9e8), 0);
    assert_eq!(value_of(&r, 0x1c910), 0x80005);
    assert_eq!(value_of(&r, 0x14318), (START + 0x30240) | 1);
    let layered = Parameters { layers: 3, queue_item_index: 2, ..parameters() };
    let r = layered.tiling_registers().unwrap();
    assert_eq!(value_of(&r, 0x10169), 0xe002);
    assert_eq!(value_of(&r, 0x1c9e8), 0x4002);
    assert_eq!(value_of(&r, 0x1c910), 0x8000d);
}

#[test]
fn fragment_registers_are_ordered() {
    let p = Parameters { utile_config: 0x6000, stencil_clear_value: 5, ..parameters() };
    let r = p.fragment_registers().unwrap();
    assert_eq!(r[0], (0x01739, 1));
    assert_eq!((r[85], r[86]), ((0x01731, 1), (0x01731, 1)));
    assert_eq!(value_of(&r, 0x15211), 48 << 32 | 64);
    assert_eq!(value_of(&r, 0x15309), 0x305);
    assert_eq!(value_of(&r, 0x16431), 80 << 24);
    assert_eq!(value_of(&r, 0x16068), 0x3717f | 1 << 44 | 1 << 53 | 0x20_0000_0000 | 0x6000 << 28);
    let layered = Parameters { layers: 2, ..p };
    assert_eq!(
        value_of(&layered.fragment_registers().unwrap(), 0x16068),
        0x3717f | 1 << 44 | 1 << 53 | 0x20_0000_0000 | 0x1_0000_0000 | 0x6000 << 28
    );
}

#[test]
fn register_tables_are_packed_by_twelve() {
    let t = pack_registers(&[(0x1748, 1), (0x10141, 512)]).unwrap();
    assert_eq!((get32(&t, 0), get64(&t, 4)), (0x1748, 1));
    assert_eq!((get32(&t, 12), get64(&t, 16)), (0x10141, 512));
    assert!(t[24..].iter().all(|b| *b == 0));
    assert!(pack_registers(&vec![(0, 0); 128]).is_some());
    assert!(pack_registers(&vec![(0, 0); 129]).is_none());
}

#[test]
fn tiling_work_embeds_its_registers() {
    let p = Parameters {
        tiling_lifecycle: 0x0800_9f52_0900_a6bb,
        request_tvb_growth: true,
        sampler_array: 0x2000,
        sampler_count: 4,
        ..parameters()
    };
    let a = Addresses::bootstrap();
    let w = p.tiling_work(&a).unwrap();
    assert_eq!((get32(&w, 0x40), get64(&w, 0x44)), (0x01748, 1));
    assert_eq!(get64(&w, 0x740), 0x70_0004_a980);
    assert_eq!((get16(&w, 0x748), get16(&w, 0x74a)), (0x41, 0x30c));
    assert_eq!(get64(&w, 0x768), 32 * 64);
    assert_eq!(get64(&w, 0x7a8), p.deflake_1 - CONTEXT_BASE);
    assert_eq!(w[0x864], 1);
    assert_eq!(get64(&w, 0x840), 0x0800_9f52);
    assert_eq!((get64(&w, 0x84c), get32(&w, 0x854), get32(&w, 0x858)), (0x2000, 4, 5));
    assert_eq!(get64(&w, 0x8a0), 0);
    assert_eq!(get64(&w, 0x908), 0xdaa0);
    assert_eq!(get64(&w, 0x8ff), tagged_page(a.support));
    let layered = Parameters { layers: 2, ..p };
    assert_eq!(get64(&layered.tiling_work(&a).unwrap(), 0x908), 0xdaa0 | 1 << 62);
    let unaligned = Addresses { support: a.support + 1, ..a };
    assert!(p.tiling_work(&unaligned).is_none());
}

#[test]
fn fragment_work_takes_ratios_where_none_are_given() {
    let p = Parameters {
        store_pipeline: 0x100_1234_5678,
        stencil_clear_value: 0x1ff,
        samples: 2,
        ..parameters()
    };
    let a = Addresses::bootstrap();
    let w = p.fragment_work(&a, 0x3f80_0000, 0x4000_0000).unwrap();
    assert_eq!((get32(&w, 0x68), get32(&w, 0x6c)), (0x3f80_0000, 0x4000_0000));
    assert_eq!(get64(&w, 0x78), 4);
    assert_eq!((get16(&w, 0x788), get16(&w, 0x78a)), (0x51, 0x3cc));
    assert_eq!(get32(&w, 0x9fc), 0x1234_5678);
    assert_eq!(get64(&w, 0x9fc), 0x100_1234_5678);
    assert_eq!(get32(&w, 0xa2c), 0x3ff);
    assert_eq!(get32(&w, 0xbac), 1);
    assert_eq!(get64(&w, 0xc50), 0x113a0);
    let given = Parameters { merge_upper_x_bits: 7, merge_upper_y_bits: 8, ..p };
    let w = given.fragment_work(&a, 0x3f80_0000, 0x4000_0000).unwrap();
    assert_eq!((get32(&w, 0x68), get32(&w, 0x6c)), (7, 8));
}

#[test]
fn microsequences_follow_user_timestamps() {
    let a = Addresses::bootstrap();
    let t = a.tiling_microsequence();
    assert_eq!(get32(&t, 0), 5);
    assert_eq!(get64(&t, 0x14), a.tiling_work + 0x40);
    assert_eq!(get64(&t, 0x1f0), 0);
    assert_eq!(get32(&t, 0x2e8), 0xffff_fd98);
    let stamped = Addresses { tiling_user_timestamp_end: 8, fragment_user_timestamp_start: 8, ..a };
    assert_eq!(get64(&stamped.tiling_microsequence(), 0x1f0), a.tiling_work + 0x8d8);
    let f = a.fragment_microsequence();
    assert_eq!(get32(&f, 0), 7);
    assert_eq!(get64(&f, 0x210), 0);
    assert_eq!(get32(&f, 0x328), 0xffff_fd78);
    assert_eq!(get64(&stamped.fragment_microsequence(), 0x210), a.fragment_work + 0xc20);
}

#[test]
fn placements_are_checked_and_tagged() {
    let a = Addresses::bootstrap();
    assert!(a.valid());
    assert!(!Addresses { tiling_shared_tail: 1, ..a }.valid());
    assert!(!Addresses { fragment_shared_tail: 0x80, ..a }.valid());
    assert_eq!(tagged_page(0xffff_fc20_c05b_8000), 0x01ff_fffc_20c0_5b80);
}

#[test]
fn publications_advance_stamps() {
    let a = Addresses::bootstrap().publication(3).unwrap();
    assert_eq!((a.tiling_counter, a.fragment_counter), (7, 6));
    assert_eq!((a.tiling_stamp, a.fragment_stamp), (0xf00, 0x400));
    assert_eq!(a.buffer_thing, 0xffff_fc20_c060_0000 + 4 * 0x80);
    let wrapped = Addresses::bootstrap().publication(79).unwrap();
    assert_eq!(wrapped.buffer_thing, 0xffff_fc20_c060_0000);
    assert!(Addresses::bootstrap().publication(0x00ff_fff1).is_none());
}

#[test]
fn preludes_link_tiling_and_fragments() {
    let a = Addresses::bootstrap();
    let t = a.tiling_prelude(11);
    assert_eq!((get32(&t, 0), get32(&t, 4), get32(&t, 8), get32(&t, 0x10)), (6, 9, 7, 11));
    assert_eq!((get64(&t, 0x14), get32(&t, 0x1c)), (a.buffer_manager, 0xc00));
    let f = a.fragment_prelude();
    assert_eq!((get32(&f, 0), get64(&f, 4), get64(&f, 0xc)), (4, a.tiling_firmware_stamp, a.tiling_firmware_stamp));
    assert_eq!((get32(&f, 0x14), get32(&f, 0x20), get32(&f, 0x24), get32(&f, 0x28)), (0xc00, 0x10, 0x100, 0x900a6ba));
}

#[test]
fn operand_pools_lie_behind_the_private_storage() {
    let pool = OperandPool::new(START, END).unwrap();
    assert_eq!(pool.directory, START + 0x35d8000);
    assert_eq!(pool.table, START + 0x35d8000 + 0x408000);
    assert_eq!(pool.buffer, START + 0x35d8000 + 0x420000);
    assert_eq!(pool.end(), Some(pool.buffer + 24 * 0x208000));
    assert_eq!(pool.growth_base().unwrap() % 0x8000, 0);
    assert_eq!(pool.growth_end().unwrap(), pool.growth_base().unwrap() + 0x3200000);
    assert!(OperandPool::new(START + 1, END).is_none());
    assert!(OperandPool::new(START, pool.end().unwrap() - 1).is_none());
    assert!(OperandPool::new(u64::MAX - 0x3fff, u64::MAX).is_none());
    let s = pool.support(4, 0xffff_fc20_c300_5000);
    assert_eq!((get64(&s, 0), get64(&s, 0x14), get64(&s, 0x30), get64(&s, 0x4c)), (4, pool.directory, pool.table, 0xffff_fc20_c300_5000));
    assert_eq!((get32(&s, 0x1c), get32(&s, 0x24), get32(&s, 0x48)), (0x80000, 12288, 192));
}

#[test]
fn aliases_cover_the_private_storage_once() {
    let pool = OperandPool::new(START, END).unwrap();
    let mut aliases = private_aliases(&pool).to_vec();
    assert_eq!(aliases[3], (pool.directory, 0x40000, 0x400000));
    assert_eq!(aliases[15], (0x10_0008_8000 + 10 * 0x28000, 0x3470000 + 10 * 0x20000, 0x20000));
    assert_eq!(aliases[39].1, 0x450000 + 23 * 0x200000);
    aliases.sort_by_key(|a| a.1);
    assert!(aliases.windows(2).all(|p| p[0].1 + p[0].2 as u64 <= p[1].1));
    assert_eq!(fixed_ranges()[13], (0x10_0008_8000 + 10 * 0x28000, 0x20000));
}

#[test]
fn private_pages_are_initialized() {
    let pool = OperandPool::new(START, END).unwrap();
    let mut page = vec![0xffu8; 0x4000];
    private_page(&pool, 0x38000, &mut page).unwrap();
    assert_eq!((get32(&page, 0x600), get32(&page, 0x604)), (0x6000_0000, 0x35b));
    private_page(&pool, 0x44000, &mut page).unwrap();
    assert_eq!(get64(&page, 0), pool.buffer + 4 * 0x208000);
    assert_eq!(get64(&page, 8 * 513), pool.buffer + 5 * 0x208000 + 0x1000);
    private_page(&pool, 0x440000, &mut page).unwrap();
    assert_eq!(get64(&page, 0x40), pool.buffer + 0x208000 | 1 << 61);
    private_page(&pool, 0x3450000, &mut page).unwrap();
    assert_eq!((get32(&page, 0), get32(&page, 4), get32(&page, 16)), (0x11, 0x12, 0x16));
    private_page(&pool, 0, &mut page).unwrap();
    assert!(page.iter().all(|b| *b == 0));
    assert!(private_page(&pool, 0x1000, &mut page).is_none());
    assert!(private_page(&pool, 0x35d4000, &mut page).is_none());
    assert!(private_page(&pool, 0, &mut page[..0x1000]).is_none());
}

#[test]
fn placement_pages_are_linked() {
    let a = Addresses::bootstrap();
    let mut page = vec![0xffu8; 0x4000];
    a.private_page(a.buffer_manager, &mut page).unwrap();
    assert_eq!((get32(&page, 0xc), get32(&page, 0x28)), (7, 0x258000));
    assert_eq!(get64(&page, 0x20), a.buffer_manager_page_list);
    a.private_page(a.buffer_manager_block_control, &mut page).unwrap();
    assert_eq!((get32(&page, 0), get32(&page, 4), get32(&page, 0x60)), (11, 11, 1));
    a.private_page(0xffff_fc20_c060_0000, &mut page).unwrap();
    assert_eq!(get64(&page, 0x80), a.pool_slots + 4);
    assert_eq!(get64(&page, 37 * 0x80 + 0x28), 0x240030);
    a.private_page(0xffff_fc20_c058_8000, &mut page).unwrap();
    assert_eq!(get64(&page, 0x200), a.event_count_array + 8);
    assert_eq!(get32(&page, 0x110), 0x50);
    assert!(a.private_page(a.buffer_manager + 8, &mut page).is_none());
    let regions = a.private_regions();
    assert_eq!(regions[6], (a.buffer_manager_page_list, 0x1c000));
    assert_eq!(regions[7], (0xffff_fc20_c058_8000, 0x4000));
}
