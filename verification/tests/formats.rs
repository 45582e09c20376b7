use asahi_m4::bytes::{clear, copy_in, get16, get32, get64, high32, low32, store, w16, w32, w64, w8};
use asahi_m4::compute;
use asahi_m4::fw;
use asahi_m4::fw::{MainConfig, RootPointers, BUNDLE_ADDRESS};
use asahi_m4::queue;
use asahi_m4::queue::Queue;

#[test]
fn fields_are_little_endian() {
    let mut out = [0xffu8; 16];
    clear(&mut out);
    store(&mut out, w8(0, 0x11));
    store(&mut out, w16(2, 0x2233));
    store(&mut out, w32(4, 0x4455_6677));
    store(&mut out, w64(8, 0x0102_0304_0506_0708));
    assert_eq!(
        out,
        [0x11, 0, 0x33, 0x22, 0x77, 0x66, 0x55, 0x44, 8, 7, 6, 5, 4, 3, 2, 1]
    );
    assert_eq!(get16(&out, 2), 0x2233);
    assert_eq!(get32(&out, 4), 0x4455_6677);
    assert_eq!(get64(&out, 8), 0x0102_0304_0506_0708);
    assert_eq!(low32(0x1_2345_6789_abcd), 0x6789_abcd);
    assert_eq!(high32(0x1_2345_6789_abcd), 0x1_2345);
}

#[test]
fn blocks_are_copied_in_place() {
    let mut out = [9u8; 6];
    copy_in(&mut out, 2, &[1, 2, 3]);
    assert_eq!(out, [9, 9, 1, 2, 3, 9]);
}

#[test]
fn queue_helpers_store_words() {
    let mut out = [0u8; 16];
    queue::u32_at(&mut out, 1, 0x0a0b_0c0d);
    queue::u64_at(&mut out, 8, 0x1122_3344_5566_7788);
    assert_eq!(get32(&out, 1), 0x0a0b_0c0d);
    assert_eq!(out[0], 0);
    assert_eq!(get64(&out, 8), 0x1122_3344_5566_7788);
    fw::put64(&mut out, 0, 5);
    assert_eq!(get64(&out, 0), 5);
}

#[test]
fn ring_pointers_hold_write_cursor_and_capacity() {
    let out = queue::pointers(0x500, 2);
    assert_eq!(get32(&out, 0x40), 2);
    assert_eq!(get32(&out, 0x50), 0x500);
    assert_eq!(out.iter().filter(|b| **b != 0).count(), 2);
}

#[test]
fn idle_context_and_jobs() {
    let out = queue::context();
    assert_eq!(get16(&out, 0), 0xffff);
    assert_eq!((out[5], out[0x26], out[0x33]), (1, 2, 0xff));
    let jobs = queue::jobs(0xffff_fc20_0000_0030);
    assert_eq!(get64(&jobs, 0), 0);
    assert_eq!(get64(&jobs, 8), 0xffff_fc20_0000_0030);
    assert_eq!(get64(&jobs, 0x10), 0);
}

#[test]
fn barriers_and_dependencies() {
    let b = queue::barrier(queue::STAMP, 7, 8, 9, 10);
    assert_eq!(get32(&b, 0), 4);
    assert_eq!(get64(&b, 4), 0xffff_fc20_0013_8000);
    assert_eq!((get32(&b, 0xc), get32(&b, 0x10), get32(&b, 0x14), get32(&b, 0x18)), (7, 8, 9, 10));
    assert_eq!(get32(&b, 0x30), 0);
    let d = queue::dependency(0x1234, 7, 8, 9, 10);
    assert_eq!((get64(&d, 4), get64(&d, 0xc)), (0x1234, 0x1234));
    assert_eq!(
        (get32(&d, 0x14), get32(&d, 0x20), get32(&d, 0x24), get32(&d, 0x28), get32(&d, 0x30)),
        (7, 8, 9, 10, 1)
    );
}

#[test]
fn channel_messages_name_their_queue() {
    let m = queue::channel(0xffff_fc20_c000_4980, 2, 1, 1, true, 5);
    assert_eq!(get64(&m, 0), 5);
    assert_eq!(get64(&m, 8), 0xffff_fc20_c000_4980);
    assert_eq!(get32(&m, 0x10), 1);
    assert_eq!(get16(&m, 0x14), 2);
    assert_eq!((m[0x16], m[0x17]), (1, 1));
    assert_eq!(queue::channel(1, 2, 3, 0, false, 0)[0x17], 0);
}

fn a_queue() -> Queue {
    Queue { pointers: 0x1000, ring: 0x2000, jobs: 0x3000, private: 0x4000, context: 0x5000, uuid: 77 }
}

#[test]
fn queue_descriptor_links_its_parts() {
    let out = a_queue().encode();
    assert_eq!(
        (get64(&out, 0), get64(&out, 8), get64(&out, 0x10), get64(&out, 0x18), get64(&out, 0xa4)),
        (0x1000, 0x2000, 0x3000, 0x4000, 0x5000)
    );
    assert_eq!(get64(&out, 0x38), 0xffff_ffff_ffff_0000);
    assert_eq!((get32(&out, 0x2c), get32(&out, 0x4c)), (u32::MAX, u32::MAX));
    assert_eq!((get32(&out, 0x40), get32(&out, 0x48), get32(&out, 0x50)), (1, 1, 77));
}

#[test]
fn priorities_change_the_scheduler_profile() {
    let zero = a_queue().encode_priority(0).unwrap();
    assert_eq!(zero, a_queue().encode());
    let three = a_queue().encode_priority(3).unwrap();
    assert_eq!((get32(&three, 0x30), get32(&three, 0x34)), (3, 3));
    assert_eq!(get64(&three, 0x38), 0);
    assert_eq!((get32(&three, 0x40), get32(&three, 0x48)), (0, 3));
    let two = a_queue().encode_priority(2).unwrap();
    assert_eq!(get64(&two, 0x38), 0xffff_0000_0000_0000);
    assert_eq!((get32(&two, 0x40), get32(&two, 0x48)), (0, 2));
    let one = a_queue().encode_priority(1).unwrap();
    assert_eq!(get64(&one, 0x38), 0xffff_ffff_0000_0000);
    assert_eq!((get32(&one, 0x40), get32(&one, 0x48)), (0, 0));
    assert_eq!(a_queue().encode_priority(4), None);
}

#[test]
fn opening_records() {
    let c = fw::opening_control();
    assert_eq!((get32(&c, 0), get32(&c, 0x40), get32(&c, 0x44), get32(&c, 0x48)), (0x16, 0x20, 1, 0x3f));
    assert_eq!(get64(&c, 0x54), 0xffff_fc20_c052_8000);
    assert_eq!((get64(&c, 0x5c), get64(&c, 0x64)), (0x70_0040_8000, 0x70_0040_8000));
    assert_eq!((get32(&c, 0x6c), get32(&c, 0x74)), (160, 1));
    let f = fw::opening_flist();
    assert_eq!((get32(&f, 0), get32(&f, 0x1c), get32(&f, 0x28)), (1, 0x80000, 1));
    assert_eq!(get64(&f, 0x14), 0x70_0000_0000);
    assert_eq!(get64(&f, 0x4c), 0xffff_fc20_0014_8000);
}

#[test]
fn parameter_buffer_descriptors_are_checked() {
    let d = fw::parameter_buffer_descriptor(0x10_0025_8000, 44).unwrap();
    assert_eq!(get32(&d, 0), 0x0002_5800);
    assert_eq!(get32(&d, 4), 44);
    assert_eq!(get64(&d, 8), 0);
    assert_eq!(fw::parameter_buffer_descriptor(0x0f_ffff_ff80, 44), None);
    assert_eq!(fw::parameter_buffer_descriptor(0x20_0000_0000, 44), None);
    assert_eq!(fw::parameter_buffer_descriptor(0x10_0025_8040, 44), None);
    assert_eq!(fw::parameter_buffer_descriptor(0x10_0025_8000, 0), None);
    assert_eq!(fw::parameter_buffer_descriptor(0x10_0025_8000, 0x40_0000), None);
}

#[test]
fn operand_pages_skip_the_guards() {
    assert_eq!(fw::operand_page(0), 0x70_0042_0000);
    assert_eq!(fw::operand_page(511), 0x70_0042_0000 + 511 * 0x1000);
    assert_eq!(fw::operand_page(512), 0x70_0042_0000 + 0x208000);
    assert!(fw::operand_page(511) + 0x1000 < fw::operand_page(512));
}

#[test]
fn root_descriptor_names_regions_and_geometry() {
    let root = RootPointers::bootstrap();
    assert_eq!(root.main_config, 0xffff_fc20_c04f_5a40);
    let out = root.encode();
    assert_eq!((get16(&out, 0), get16(&out, 2), get16(&out, 4), get16(&out, 6)), (0x04b8, 0x8392, 0xc357, 0x0c89));
    assert_eq!(get64(&out, 0x08), 0xffff_fc20_0010_8000);
    assert_eq!(get64(&out, 0x18), 0xffff_fc20_c04f_5a40);
    assert_eq!(get64(&out, 0x20), 0xffff_fc20_000f_8000);
    assert_eq!(get64(&out, 0xa8), 0xffff_fc20_0003_f180);
    assert_eq!(get64(&out, 0xc0), 0xffff_fc20_000f_3440);
    assert_eq!((get16(&out, 0x30), out[0x32], out[0x33]), (0x4000, 14, 3));
    assert_eq!(get64(&out, 0x4c), 0x3f0_0000_0000);
    assert_eq!(get64(&out, 0x6c), 0xf_fe00_0000);
    assert_eq!(get64(&out, 0x8c), 0x1ff_c000);
}

#[test]
fn main_configuration_lists_channels() {
    let main = MainConfig::bootstrap(BUNDLE_ADDRESS);
    assert_eq!(main.hwdata, BUNDLE_ADDRESS);
    assert_eq!(main.repeated, BUNDLE_ADDRESS + 0xb980);
    assert_eq!(main.channels[0].state, [0xffff_fc20_0002_8000, 0xffff_fc20_0002_8008, 0xffff_fc20_0002_0000]);
    assert_eq!(main.channels[1].state[0], 0xffff_fc20_0002_8040);
    assert_eq!(main.channels[1].ring, BUNDLE_ADDRESS + 0x16240);
    assert_eq!(main.channels[12].state, [0xffff_fc20_0002_80c0, 0xffff_fc20_0002_80c8, 0xffff_fc20_0002_0060]);
    assert_eq!(main.channels[13].ring, 0xffff_fc20_0004_3c40);
    assert_eq!(main.channels[16].ring, 0);
    let out = main.encode();
    assert_eq!(get64(&out, 0x20), 0xffff_fc20_0002_8000);
    assert_eq!(get64(&out, 0x38), BUNDLE_ADDRESS + 0x10240);
}

#[test]
fn compute_entry_drains_caches_first() {
    let e = compute::entry(0x12_3456_7890);
    assert_eq!(get32(&e, 0), 0x600f_ffff);
    assert_eq!(get32(&e, 4), 0x2000_0012);
    assert_eq!(get32(&e, 8), 0x3456_7890);
}

#[test]
fn compute_private_ranges() {
    let r = compute::private_ranges();
    assert_eq!(r[0], (0x70_02cc_0000, 0x18000));
    assert_eq!(r[1], (0x70_030e_0000, 0x20000));
    assert_eq!(r[2], (0x10_00c6_0000, 0x4000));
    assert_eq!(r[3], (0x70_0310_8000, 0x200000));
    assert_eq!(r[18], (0x70_0310_8000 + 15 * 0x208000, 0x200000));
}

#[test]
fn compute_support_block() {
    let s = compute::support();
    assert_eq!(get64(&s, 0), 2);
    assert_eq!(get64(&s, 0x14), 0x70_02cc_0000);
    assert_eq!((get32(&s, 0x1c), get32(&s, 0x24), get32(&s, 0x2c)), (0x3000, 0x2000, 0x2000));
    assert_eq!(get64(&s, 0x4c), 0xffff_fc20_001b_0000);
}

#[test]
fn compute_publications_are_numbered() {
    let a = compute::Addresses::publication(2, 5, 0xffff_fc22_0001_0000, 0x6f_0000_4000).unwrap();
    assert_eq!(a.microsequence, 0xffff_fc22_0001_1000);
    assert_eq!(a.register_table, 0x6f_0000_4020);
    assert_eq!(a.identity, 0x1_0000_0003);
    assert_eq!((a.counter, a.event_generation, a.stamp, a.event, a.ordinal), (3, 3, 0x300, 4, 5));
    let n = a.notifier(9);
    assert_eq!(get64(&n, 0), 0xffff_fc22_0001_1800);
    assert_eq!((get32(&n, 8), get32(&n, 12), get32(&n, 16), get32(&n, 0x24)), (3, 9, 0x50, 1));
    assert!(compute::Addresses::publication(0x00ff_fff1, 0, 0, 0).is_none());
    assert!(compute::Addresses::publication(0, 0x1_0000_0000, 0, 0).is_none());
}

fn compute_parameters() -> compute::Parameters {
    compute::Parameters {
        cdm: 0x1_0000,
        cdm_end: 0x1_0100,
        sampler: 0x2_0000,
        sampler_count: 3,
        scratch: compute::SCRATCH,
        marker: compute::MARKER,
        resource: 0x3_0000,
    }
}

#[test]
fn compute_validity() {
    let p = compute_parameters();
    assert!(p.valid());
    assert!(!compute::Parameters { cdm: 0, ..p }.valid());
    assert!(!compute::Parameters { cdm: 0x1_0002, ..p }.valid());
    assert!(!compute::Parameters { cdm_end: 0x1_0000, ..p }.valid());
    assert!(!compute::Parameters { cdm_end: 0x1_0101, ..p }.valid());
    assert!(!compute::Parameters { sampler: 0x2_0004, ..p }.valid());
    assert!(!compute::Parameters { sampler: 0, ..p }.valid());
    assert!(!compute::Parameters { sampler_count: 0, ..p }.valid());
    assert!(!compute::Parameters { sampler_count: u32::MAX, ..p }.valid());
}

#[test]
fn compute_work_holds_registers_and_descriptors() {
    let p = compute_parameters();
    let a = compute::Addresses::publication(0, 0, 0xffff_fc22_0001_0000, 0x6f_0000_4000).unwrap();
    let w = p.work(&a).unwrap();
    assert_eq!(get32(&w, 0), 3);
    assert_eq!((get32(&w, 0x20), get64(&w, 0x24)), (0x1a510, 0x3_0000));
    assert_eq!((get32(&w, 0x2c), get64(&w, 0x30)), (0x1a420, 0x1_0000));
    assert_eq!((get32(&w, 0x38), get64(&w, 0x3c)), (0x1a4d0, 0x3_1480));
    assert_eq!(get32(&w, 0x728), 0x120_0018);
    assert_eq!(get64(&w, 0x7a0), 0x1_00fc);
    assert_eq!(get64(&w, 0x7e8), 0x2_0000);
    assert_eq!(get32(&w, 0x7f4), 4);
    let none = compute::Parameters { sampler: 0, sampler_count: 0, ..p };
    let w = none.work(&a).unwrap();
    assert_eq!((get64(&w, 0x7e8), get32(&w, 0x7f4)), (0xffff_ffff, 0));
    let entered = compute::Addresses { cdm_entry: Some(0x9_0000), ..a };
    assert_eq!(get64(&p.work(&entered).unwrap(), 0x30), 0x9_0000);
    assert!(compute::Parameters { cdm: 0, ..p }.work(&a).is_none());
}

#[test]
fn compute_microsequence_points_into_the_work() {
    let p = compute_parameters();
    let a = compute::Addresses::publication(0, 0, 0xffff_fc22_0001_0000, 0x6f_0000_4000).unwrap();
    let m = p.microsequence(&a);
    assert_eq!(get64(&m, 0x14), 0xffff_fc22_0001_0020);
    assert_eq!(get64(&m, 0x190), compute::SCRATCH + 0xf400);
    assert_eq!(get32(&m, 0x1bc), 0x8000_0003);
    assert_eq!(get64(&m, 0x1d0), 0xffff_fc22_0001_0834);
    assert_eq!(get32(&m, 0x20c), 3);
    assert_eq!(get64(&m, 0x220), 0xffff_fc22_0001_083c);
    assert_eq!(get32(&m, 0x2bc), 0xffff_fda8);
}
