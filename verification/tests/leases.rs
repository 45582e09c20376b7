use asahi_m4::bytes::{get32, get64};
use asahi_m4::contexts::{context_entry, invalid_entry, Contexts};
use asahi_m4::device::{answer_size, check_tvb_limit, check_version, fence_outcome, get_params};
use asahi_m4::error::Error;
use asahi_m4::lanes::{lane_regions, lanes_at, FirmwareQueues, WORK_BASE};
use asahi_m4::render::Addresses;
use asahi_m4::space::Roots;
use asahi_m4::timestamps::Timestamps;
use asahi_m4::tvb::{Observed, Tvb};

fn roots(low: u64) -> Roots {
    Roots { low, high: low + 0x4000 }
}

#[test]
fn context_entries() {
    assert_eq!(context_entry(0x80_0000_0000, 3), 0x0003_0080_0000_0001);
    assert_eq!(invalid_entry(0x0003_0080_0000_0001), 0x0003_0080_0000_0000);
    assert_eq!(invalid_entry(6), 6);
}

#[test]
fn contexts_stay_bound_while_leased() {
    let mut c = Contexts::new();
    assert_eq!(c.acquire(roots(0x10000), 5), Ok((5, true)));
    assert_eq!(c.acquire(roots(0x10000), 9), Ok((5, false)));
    assert_eq!(c.acquire(roots(0x20000), 5), Ok((1, true)));
    assert_eq!(c.stale(0x30000, 0x10000), vec![5]);
    assert_eq!(c.stale(0x10000, 0x10000), vec![0, 5]);
    assert_eq!(c.detach(0x10000), Err(Error::EBUSY));
    c.release(5);
    c.release(5);
    assert_eq!(c.acquire(roots(0x10000), 9), Ok((5, false)));
    c.release(5);
    assert_eq!(c.detach(0x10000), Ok(Some(5)));
    assert_eq!(c.detach(0x10000), Ok(None));
}

#[test]
fn contexts_run_out() {
    let mut c = Contexts::new();
    for i in 0..63u64 {
        assert!(c.available(0x10000 + i * 0x8000));
        c.acquire(roots(0x10000 + i * 0x8000), 1).unwrap();
    }
    assert!(!c.available(0x8000));
    assert!(c.available(0x10000));
    assert_eq!(c.acquire(roots(0x8000), 1), Err(Error::EBUSY));
    c.release(7);
    assert_eq!(c.acquire(roots(0x8000), 1), Ok((7, true)));
}

#[test]
fn timestamp_ranges_take_the_first_gap() {
    let mut t = Timestamps::new();
    assert_eq!(t.reserve(0, 0x10000, 0x20000), Err(Error::EINVAL));
    assert_eq!(t.reserve(0x1000, 0x10000, 0x20000), Err(Error::EINVAL));
    assert_eq!(t.reserve(0x4000, 0x10000, 0x20000), Ok(0x10000));
    assert_eq!(t.reserve(0x8000, 0x10000, 0x20000), Ok(0x14000));
    t.release(0x10000, 0x14000);
    assert_eq!(t.reserve(0x8000, 0x10000, 0x20000), Err(Error::ENOSPC));
    assert_eq!(t.reserve(0x4000, 0x10000, 0x20000), Ok(0x10000));
    assert_eq!(t.reserve(0x4000, 0x10000, 0x20000), Ok(0x1c000));
    t.release(0x10000, 0x18000);
    assert_eq!(t.ranges.len(), 3);
}

#[test]
fn lanes_are_laid_out() {
    let lanes = lanes_at(WORK_BASE);
    assert_eq!((lanes[2].queue, lanes[2].pointers, lanes[2].ring), (WORK_BASE + 0x18000, WORK_BASE + 0x1c000, WORK_BASE + 0x20000));
    assert_eq!(lanes[1].firmware_stamp(), WORK_BASE + 0xc000 + 0x5040);
    let r = lane_regions(&lanes);
    assert_eq!((r[4].address, r[4].size), (WORK_BASE + 0x18000, 0x4000));
    assert_eq!((r[5].address, r[5].size), (WORK_BASE + 0x1c000, 0x8000));
    assert_eq!((r[0].prot.memattr, r[1].prot.memattr), (0, 2));
}

#[test]
fn events_are_leased_by_three() {
    let mut q = FirmwareQueues::new(2, 40);
    assert_eq!(q.event(0), Err(Error::EIO));
    assert_eq!(q.lease_events(0b101), Ok(0b111));
    assert_eq!(q.lease_events(0b111), Ok(0b111));
    assert_eq!(q.event(2), Ok(32 + 3 + 2));
    q.pending = 1;
    assert_eq!(q.settle(0b111), 0b111);
    q.pending = 0;
    assert_eq!(q.settle(0b111), 0b101);
    assert_eq!(q.events, None);
    assert_eq!(q.lease_events(0xffff_ffff), Err(Error::EBUSY));
    assert_eq!(q.objects(&lanes_at(WORK_BASE)).err(), None);
    let bad = FirmwareQueues::new(4, 0);
    assert_eq!(bad.objects(&lanes_at(WORK_BASE)).err(), Some(Error::EINVAL));
}

const TVB: u64 = 0xffff_fc23_0000_0000;

#[test]
fn tiler_buffers_are_placed() {
    let p = Tvb::place(TVB, 4);
    assert_eq!((p.buffer_manager, p.buffer_thing, p.buffer_manager_slot), (TVB, TVB + 0x4080, 4));
    assert_eq!((p.buffer_manager_block_list, p.buffer_manager_page_list), (TVB + 0x14000, TVB + 0x24000));
    let r = Tvb::regions(TVB);
    assert_eq!((r[0].size, r[1].size, r[2].size), (0x10000, 0x4000, 0x2c000));
    assert_eq!((r[1].prot.memattr, r[2].address), (2, TVB + 0x14000));
    assert_eq!(Tvb::aliases(TVB)[6], (0x10_0025_8000 + 0x18000, TVB + 0x3c000));
    let (va, d) = Tvb::descriptor(3);
    assert_eq!((va, get32(&d, 0), get32(&d, 4), get64(&d, 8)), (0xffff_fc20_0012_8030, 0x25800, 44, 0));
}

#[test]
fn scenes_are_leased_lowest_first() {
    let mut t = Tvb::new(0x8000, TVB, 4);
    for i in 0..36 {
        assert_eq!(t.reserve_scene(), Ok(i));
    }
    assert_eq!(t.reserve_scene(), Err(Error::EBUSY));
    t.release_scene(9);
    t.release_scene(20);
    assert_eq!(t.reserve_scene(), Ok(9));
    let mut a = Addresses::bootstrap();
    let untouched = a;
    t.work_addresses(&mut a, 2);
    assert_eq!((a.buffer_thing, a.buffer_manager, a.support), (TVB + 0x4100, TVB, untouched.support));
    assert_eq!(t.next_count(), (TVB + 0x10000, 1));
    t.submissions = u32::MAX;
    assert_eq!(t.next_count(), (TVB + 0x10000, 0));
    t.increment();
    assert_eq!(t.submissions, 0);
}

fn observed(t: &Tvb) -> Observed {
    Observed {
        root: t.root,
        mirror: t.blocks,
        counts: (t.blocks, t.blocks),
        block_list: t.addresses.buffer_manager_block_list,
        block_control: t.addresses.buffer_manager_block_control,
        block_size: 0x20000,
        capacity: 7168,
    }
}

#[test]
fn growth_triples_within_the_limit() {
    let mut t = Tvb::new(0x8000, TVB, 4);
    assert_eq!(t.grow(observed(&t), 331), Ok(Some(33)));
    assert_eq!(t.grow(observed(&t), 20), Ok(Some(20)));
    assert_eq!(t.grow(observed(&t), 11), Ok(None));
    assert_eq!(t.smaller(33), Some(22));
    assert_eq!(t.smaller(12), None);
    for bad in [
        Observed { root: 1, ..observed(&t) },
        Observed { mirror: 12, ..observed(&t) },
        Observed { counts: (11, 12), ..observed(&t) },
        Observed { block_list: 0, ..observed(&t) },
        Observed { block_control: 0, ..observed(&t) },
        Observed { block_size: 0x8000, ..observed(&t) },
        Observed { capacity: 32, ..observed(&t) },
    ] {
        assert_eq!(t.grow(bad, 331), Err(Error::EIO));
    }
    let (va, entries) = t.entries(0x10_1000_0000, 13);
    assert_eq!(va, TVB + 0x14000 + 88);
    assert_eq!((entries.len(), get64(&entries, 0), get64(&entries, 8)), (16, 0x2000, 0x2005));
    let (va, counts) = t.counts(33);
    assert_eq!((va, get32(&counts, 0), get32(&counts, 4)), (TVB + 0x8000, 33, 33));
    t.grown(33);
    assert_eq!(t.grow(observed(&t), 331), Ok(Some(99)));
    t.grown(6579);
    assert_eq!(t.grow(observed(&t), u32::MAX), Ok(None));
}

#[test]
fn device_limits() {
    assert_eq!((check_tvb_limit(11), check_tvb_limit(331)), (Ok(()), Ok(())));
    assert_eq!((check_tvb_limit(10), check_tvb_limit(332)), (Err(Error::EINVAL), Err(Error::EINVAL)));
    assert_eq!((check_version(0), check_version(u32::MAX), check_version(1)), (Err(Error::ENODEV), Err(Error::ENODEV), Ok(())));
    assert_eq!((answer_size(10, 4), answer_size(10, 40)), (4, 10));
    assert_eq!(fence_outcome(-4), Err(Error::Other(-4)));
    assert_eq!((fence_outcome(0), fence_outcome(1)), (Err(Error::ETIMEDOUT), Ok(())));
    assert_eq!(get_params(1, 0, 0, 0).err(), Some(Error::EINVAL));
    assert_eq!(get_params(0, 1, 0, 0).err(), Some(Error::EINVAL));
    let p = get_params(0, 0, 1_470_000, 0x3ff).unwrap();
    assert_eq!((p.gpu_generation, p.gpu_variant, p.chip_id, p.core_mask), (16, 0x47, 0x8132, 0x3ff));
    assert_eq!((p.vm_start, p.vm_end, p.max_frequency_khz), (0x4000, 0x3ff_ffff_8000, 1_470_000));
}
