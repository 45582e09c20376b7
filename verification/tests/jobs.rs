use asahi_m4::compute;
use asahi_m4::error::Error;
use asahi_m4::events::EVENTS_PER_PASS;
use asahi_m4::flights::Session;
use asahi_m4::jobs::Order;
use asahi_m4::lanes::{lanes_at, FirmwareQueues, Stamp, WORK_BASE};
use asahi_m4::launch::Support;
use asahi_m4::prot::prot_gpu_shared_rw;
use asahi_m4::render;
use asahi_m4::space::AddressSpace;
use asahi_m4::tables::TableMemory;
use asahi_m4::tvb::Tvb;

const START: u64 = 0x10_1000_0000;
const PRIVATE_PAGES: u64 = 0xd75;

fn queue(index: u32, base: u64) -> FirmwareQueues {
    let mut q = FirmwareQueues::new(2, 0);
    q.lanes = Some(lanes_at(base));
    q.events = Some(index);
    q
}

fn order(work: u64, context: u32) -> Order {
    Order {
        owner: 7,
        work,
        context,
        timestamps: [0x5000_0000, 0x5000_0008, 0x5000_0010, 0x5000_0018],
        dependencies: [None, Some(Stamp { address: 0x900, value: 0x100, event: 3 })],
    }
}

fn dispatch() -> compute::Parameters {
    compute::Parameters {
        cdm: START,
        cdm_end: START + 0x100,
        sampler: 0,
        sampler_count: 0,
        scratch: 0x20_0000_0000,
        marker: 0x20_0002_0000,
        resource: 0,
    }
}

fn draw() -> render::Parameters {
    let mut p = render::Parameters::default();
    p.set_private(START, START + 0x2000_0000).unwrap();
    p.width = 64;
    p.height = 48;
    p.layers = 1;
    p.utile_width = 32;
    p.utile_height = 32;
    p.samples = 1;
    p.tib_blocks = 2;
    p.encoder = START + 0x100;
    p
}

#[test]
fn computes_take_the_counts_of_their_queue() {
    let mut s = Session::new();
    let mut a = queue(1, WORK_BASE);
    let mut b = queue(2, WORK_BASE + 0x24000);
    let work = |i: u64| WORK_BASE + 0x100000 + i * 0x8000;
    // Two queues take turns: numbers follow the session, stamps the queue.
    for (i, (number, stamp, event)) in [(1, 0x100, 37), (2, 0x100, 40), (3, 0x200, 37), (4, 0x200, 40)].iter().enumerate() {
        let q = if i % 2 == 0 { &mut a } else { &mut b };
        let job = s.compute_job(q, &dispatch(), &order(work(i as u64), 5)).unwrap();
        assert_eq!((job.addresses.counter, job.addresses.stamp, job.addresses.event), (*number, *stamp, *event));
        assert_eq!((job.addresses.work, job.addresses.context, job.owner), (work(i as u64), 5, 7));
        assert_eq!((job.timestamps[1], job.dependencies[1].unwrap().event), (0x5000_0008, 3));
        assert_eq!(job.addresses.firmware_stamp, q.lanes.unwrap()[2].pointers + 0x1040);
        s.submit_compute_queue(q, &job, 5, 1000).unwrap();
    }
    assert_eq!((s.compute_publication, a.compute_count, b.compute_count), (4, 2, 2));
}

#[test]
fn computes_need_storage_events_and_an_alias() {
    let s = Session::new();
    let q = queue(1, WORK_BASE);
    let far = order(WORK_BASE + 0x1_0000_0000, 5);
    assert_eq!(s.compute_job(&q, &dispatch(), &far).err(), Some(Error::ENOSPC));
    let bare = FirmwareQueues { events: None, ..queue(1, WORK_BASE) };
    assert_eq!(s.compute_job(&bare, &dispatch(), &far).err(), Some(Error::EIO));
    let bare = FirmwareQueues { lanes: None, ..queue(1, WORK_BASE) };
    assert_eq!(s.compute_job(&bare, &dispatch(), &far).err(), Some(Error::EIO));
}

#[test]
fn renders_take_the_counts_of_their_queue() {
    let mut s = Session::new();
    let mut a = queue(1, WORK_BASE);
    let mut b = queue(2, WORK_BASE + 0x24000);
    let mut support = Support { index: 2, growth_base: 0, submissions: 0 };
    s.tvb_pools.push(Tvb::new(0x4000, WORK_BASE + 0x300000, 8));
    s.tvb_pools.push(Tvb::new(0x8000, WORK_BASE + 0x200000, 9));
    for (i, (counter, stamps, events)) in
        [(1, (0xc00, 0x100), (35, 36)), (1, (0xc00, 0x100), (38, 39)), (3, (0xd00, 0x200), (35, 36))].iter().enumerate()
    {
        let q = if i % 2 == 0 { &mut a } else { &mut b };
        let work = WORK_BASE + 0x100000 + i as u64 * 0x1c000;
        let job = s.render_job(q, 0x8000, &support, &draw(), 4, (1, 2), &order(work, 9)).unwrap();
        let at = &job.addresses;
        assert_eq!((at.tiling_counter, (at.tiling_stamp, at.fragment_stamp)), (*counter, *stamps));
        assert_eq!((at.tiling_event, at.fragment_event), *events);
        assert_eq!((at.buffer_manager, at.support, at.context_id), (WORK_BASE + 0x200000, support.address(), 9));
        assert_eq!((at.fragment_user_timestamp_end, at.tiling_driver_stamp), (0x5000_0018, work + 0x18000));
        assert_eq!((job.root, job.scene, job.work, job.ratio), (0x8000, 4, work, (1, 2)));
        let mut pool = s.tvb_pools.pop().unwrap();
        s.submit_render_pool(q, &mut pool, &mut support, &job, &[3, 4], 50).unwrap();
        s.tvb_pools.push(pool);
    }
    assert_eq!((a.render_count, b.render_count), (2, 1));
}

#[test]
fn renders_need_a_buffer_too() {
    let mut s = Session::new();
    let q = queue(1, WORK_BASE);
    let support = Support { index: 2, growth_base: 0, submissions: 0 };
    let near = order(WORK_BASE + 0x100000, 9);
    let far = order(WORK_BASE + 0x1_0000_0000, 9);
    let make = |s: &Session, q: &FirmwareQueues, o: &Order| s.render_job(q, 0x8000, &support, &draw(), 0, (1, 1), o).err();
    assert_eq!(make(&s, &q, &near), Some(Error::EIO));
    s.tvb_pools.push(Tvb::new(0x8000, WORK_BASE + 0x200000, 9));
    assert_eq!(make(&s, &q, &near), None);
    assert_eq!(make(&s, &q, &far), Some(Error::ENOSPC));
    assert_eq!(make(&s, &FirmwareQueues { events: None, ..queue(1, WORK_BASE) }, &near), Some(Error::EIO));
    assert_eq!(make(&s, &FirmwareQueues { lanes: None, ..queue(1, WORK_BASE) }, &near), Some(Error::EIO));
}

#[test]
fn addresses_are_zero_by_default() {
    let a = render::Addresses::default();
    assert_eq!((a.tiling_queue, a.support, a.buffer_manager, a.context_id), (0, 0, 0, 0));
    assert_eq!((a.fragment_stamp, a.tiling_register_alias, a.fragment_user_timestamp_end), (0, 0, 0));
    assert_ne!(render::Addresses::bootstrap().tiling_queue, 0);
    assert_eq!(EVENTS_PER_PASS, 256);
}

fn client(tables: u64) -> (AddressSpace, TableMemory) {
    let mut mem = TableMemory::new();
    for i in 0..tables {
        mem.free.push(0x80_0000_0000 + i * 0x4000);
    }
    (AddressSpace::new(&mut mem).unwrap(), mem)
}

fn frames(count: u64) -> Vec<u64> {
    (0..count).map(|i| 0x90_0000_0000 + i * 0x4000).collect()
}

#[test]
fn private_storage_is_built_and_aliased() {
    let (mut s, mut mem) = client(64);
    let mut f = frames(PRIVATE_PAGES + 1);
    let end = START + 0x2000_0000;
    let pool = s.alloc_render_private(&mut mem, &mut f, START, end).unwrap();
    assert_eq!((pool.directory, pool.table, pool.buffer), (START + 0x35d8000, START + 0x39e0000, START + 0x39f8000));
    assert_eq!((f.len(), s.pages.len()), (1, PRIVATE_PAGES as usize));
    assert_eq!(s.render_scratch, START + 0x6ab8000 + 0x3200000..end);
    assert_eq!(s.low.translate(&mut mem, START), Ok(Some(0x90_0000_0000 + PRIVATE_PAGES * 0x4000)));
    // The first alias and the last one show what the storage holds.
    for (alias, offset) in [(0x10_0008_0000, 0x3c000), (pool.buffer + 23 * 0x208000, 0x450000 + 23 * 0x200000)] {
        let behind = s.low.translate(&mut mem, START + offset).unwrap();
        assert!(behind.is_some());
        assert_eq!(s.low.translate(&mut mem, alias), Ok(behind));
    }
    assert_eq!(s.low.translate(&mut mem, pool.buffer + 24 * 0x208000), Ok(None));
}

#[test]
fn private_storage_fails_in_order() {
    let end = START + 0x2000_0000;
    let enough = PRIVATE_PAGES + 3;
    // No carveout, and nothing done.
    let (mut s, mut mem) = client(64);
    let mut f = frames(enough);
    assert_eq!(s.alloc_render_private(&mut mem, &mut f, START + 8, end).err(), Some(Error::EINVAL));
    // No scratch range, though a page of the storage is mapped.
    let rw = prot_gpu_shared_rw();
    s.alloc_low(&mut mem, &mut f, START + 0x4000, 0x4000, rw).unwrap();
    let tight = START + 0x6ab8000;
    assert_eq!(s.alloc_render_private(&mut mem, &mut f, START, tight).err(), Some(Error::ENOMEM));
    assert_eq!((s.render_scratch.end, f.len() as u64), (tight, enough - 1));
    // The mapped page comes before the lack of frames.
    let mut few = frames(10);
    assert_eq!(s.alloc_render_private(&mut mem, &mut few, START, end).err(), Some(Error::EEXIST));
    assert_eq!((few.len(), s.pages.len()), (10, 1));
    // The lack of frames comes before an alias that is taken.
    let (mut s, mut mem) = client(64);
    s.alloc_low(&mut mem, &mut f, 0x10_0008_0000, 0x4000, rw).unwrap();
    let mut few = frames(10);
    assert_eq!(s.alloc_render_private(&mut mem, &mut few, START, end).err(), Some(Error::ENOMEM));
    assert_eq!((few.len(), s.pages.len()), (0, 11));
    let (mut s, mut mem) = client(64);
    s.alloc_low(&mut mem, &mut f, 0x10_0008_0000, 0x4000, rw).unwrap();
    assert_eq!(s.alloc_render_private(&mut mem, &mut f, START, end).err(), Some(Error::EEXIST));
    assert_eq!((f.len() as u64, s.pages.len() as u64), (enough - 3 - PRIVATE_PAGES, PRIVATE_PAGES + 1));
}

#[test]
fn storage_below_the_fixed_aliases_meets_them() {
    // The private storage covers the fixed aliases where it starts at the context base.
    let (mut s, mut mem) = client(64);
    let mut f = frames(PRIVATE_PAGES);
    let start = 0x10_0000_0000;
    assert_eq!(s.alloc_render_private(&mut mem, &mut f, start, start + 0x2000_0000).err(), Some(Error::EEXIST));
    assert_eq!(f.len(), 0);
}
