use asahi_m4::bytes::{get32, get64};
use asahi_m4::compute;
use asahi_m4::error::Error;
use asahi_m4::events::{
    drain_trace_rx, event_address, limit_reply, next_event, render_action, reply_address, trace_rings, EventAction,
    RenderAction,
};
use asahi_m4::flights::{Cursors, Refusal, Session};
use asahi_m4::lanes::{lanes_at, FirmwareQueues, Lane, Stamp, WORK_BASE};
use asahi_m4::launch::Support;
use asahi_m4::operands::OperandPool;
use asahi_m4::publish::{ComputeJob, RenderJob};
use asahi_m4::render;
use asahi_m4::retire::Progress;
use asahi_m4::space::Roots;
use asahi_m4::submit::{next_head, render_addresses, render_alias, select_scene};
use asahi_m4::submit_compute::{compute_addresses, compute_alias};
use asahi_m4::tvb::Tvb;
use asahi_m4::works::Works;

const START: u64 = 0x10_1000_0000;

fn idle() -> Cursors {
    Cursors { read: 0, done: 0, tail: 0, lane_read: 0, lane_done: 0 }
}

fn queue() -> FirmwareQueues {
    let mut q = FirmwareQueues::new(2, 0);
    q.lanes = Some(lanes_at(WORK_BASE));
    q.events = Some(1);
    q
}

fn roots(low: u64) -> Roots {
    Roots { low, high: low + 0x4000 }
}

#[test]
fn work_is_leased_and_given_back() {
    let mut w = Works::new();
    assert_eq!(w.take(true), None);
    let base = w.claim(true).unwrap();
    assert_eq!((base, w.next), (WORK_BASE, WORK_BASE + 16 * 0x1c000));
    let regions = Works::regions(base, true);
    assert_eq!((regions.len(), regions[0].size, regions[1].address, regions[1].size), (32, 0x10000, base + 0x10000, 0xc000));
    assert_eq!(regions[2].address, base + 0x1c000);
    w.refill(true, base);
    assert_eq!(w.take(true), Some(base));
    assert_eq!(w.take(true), Some(base + 0x1c000));
    assert_eq!(w.take(false), None);
    w.give_back(true, base);
    assert_eq!(w.take(true), Some(base));
    let compute = Works::regions(base, false);
    assert_eq!((compute[0].size, compute[1].size, compute[2].address), (0x4000, 0x4000, base + 0x8000));
    w.next = u64::MAX;
    assert_eq!((w.claim(false), w.reserve(1)), (Err(Error::ENOSPC), Err(Error::ENOSPC)));
}

#[test]
fn storage_is_claimed_once() {
    let mut s = Session::new();
    let q = FirmwareQueues::new(2, 0);
    let lanes = s.claim_lanes(&q).unwrap().unwrap();
    assert_eq!((lanes[0].queue, s.works.next), (WORK_BASE, WORK_BASE + 0x24000));
    assert_eq!(s.claim_lanes(&queue()), Ok(None));
    assert_eq!(s.claim_pool(0x8000), Ok(Some(WORK_BASE + 0x24000)));
    s.tvb_pools.push(Tvb::new(0x8000, WORK_BASE + 0x24000, 9));
    assert_eq!(s.claim_pool(0x8000), Ok(None));
    let (index, writes, region) = s.pool_release(0x8000).unwrap();
    assert_eq!((index, writes[0].va, writes[0].bytes.len()), (0, 0xffff_fc20_0012_8000 + 9 * 16, 16));
    assert_eq!(region, WORK_BASE + 0x24000);
    s.drop_pool(0);
    assert!(s.pool_release(0x8000).is_none());
    s.works.next = u64::MAX;
    assert_eq!(s.claim_lanes(&q), Err(Error::ENOSPC));
    assert_eq!(s.claim_pool(0x8000), Err(Error::ENOSPC));
}

#[test]
fn clients_are_released_when_idle() {
    let mut s = Session::new();
    s.contexts.acquire(roots(0x10000), 9).unwrap();
    assert_eq!(s.begin_release(0x10000), Err(Error::EBUSY));
    s.contexts.release(9);
    assert_eq!(s.begin_release(0x10000), Ok(Some(9)));
    assert_eq!(s.begin_release(0x10000), Ok(None));
    s.poison();
    assert_eq!(s.begin_release(0x10000), Err(Error::EIO));
}

#[test]
fn supports_are_leased() {
    let mut s = Session::new();
    let pool = OperandPool::new(START, START + 0x2000_0000).unwrap();
    let (support, page) = s.acquire_render_support(&pool, 3).unwrap();
    assert_eq!((support.index, support.submissions, support.buffer_slot()), (0, 6, 7));
    assert_eq!(support.growth_base % 0x8000, 0);
    assert_eq!(support.next_count(), (8, 8));
    assert_eq!(page.len() % 0x4000, 0);
    let (second, _) = s.acquire_render_support(&pool, 3).unwrap();
    assert_eq!(second.address(), support.address() + 0x4000);
    s.render_support = (1 << 57) - 1;
    assert_eq!(s.acquire_render_support(&pool, 3).err(), Some(Error::ENOSPC));
    s.poison();
    assert_eq!(s.acquire_render_support(&pool, 3).err(), Some(Error::EIO));
}

#[test]
fn flights_need_room() {
    let mut s = Session::new();
    let q = queue();
    let full = [idle(), idle(), idle()];
    assert!(s.reserve_flight(&q, true, 0x8000, &[1, 2, 0], &full).is_ok());
    let bad = [Cursors { read: 256, ..idle() }, idle(), idle()];
    assert!(matches!(s.reserve_flight(&q, true, 0x8000, &[1, 2, 0], &bad), Err(Refusal::Cursor)));
    let bad = [Cursors { tail: 127, ..idle() }, idle(), idle()];
    assert!(matches!(s.reserve_flight(&q, true, 0x8000, &[1, 2, 0], &bad), Err(Refusal::Channel)));
    let ok = [Cursors { tail: 126, ..idle() }, idle(), idle()];
    assert!(s.reserve_flight(&q, true, 0x8000, &[1, 2, 0], &ok).is_ok());
    assert!(matches!(s.reserve_flight(&q, true, 0x8000, &[640, 2, 0], &full), Err(Refusal::Workqueue)));
    assert!(s.reserve_flight(&q, false, 0x8000, &[640, 2, 0], &full).is_ok());
    for i in 1..64u64 {
        s.contexts.acquire(roots(i * 0x10000), 1).unwrap();
    }
    assert!(matches!(s.reserve_flight(&q, false, 0x8000, &[0, 0, 1], &full), Err(Refusal::Contexts)));
    s.poison();
    let e = s.reserve_flight(&q, false, 0x8000, &[0, 0, 1], &full).err().unwrap();
    assert!(matches!(e, Refusal::Failed));
    assert_eq!((e.error(), Refusal::Channel.error()), (Error::EIO, Error::EBUSY));
}

#[test]
fn publications_are_staged_and_flushed() {
    let mut s = Session::new();
    assert!(s.flush().is_none());
    let lanes = lanes_at(WORK_BASE);
    let head = |lane: Lane, head| Lane { head, ..lane };
    assert_eq!(s.stage_queue(7, head(lanes[1], 2), 36, 1, 255), Ok(255));
    assert_eq!(s.stage_queue(6, head(lanes[0], 1), 35, 1, 4), Ok(4));
    assert_eq!(s.stage_queue(7, head(lanes[1], 4), 36, 2, 9), Ok(255));
    let other = lanes_at(WORK_BASE + 0x24000);
    assert_eq!(s.stage_queue(7, head(other[1], 2), 39, 1, 255), Ok(0));
    assert_eq!(s.stage_queue(8, head(other[2], 2), 40, 1, 256), Err(Error::EIO));
    assert_eq!(s.publications.len(), 3);
    let plan = s.flush().unwrap();
    assert!(s.render_failed);
    assert_eq!(plan.writes.len(), 6);
    assert_eq!((plan.writes[0].va, get32(&plan.writes[0].bytes, 0)), (lanes[1].pointers + 0x40, 4));
    assert_eq!((get64(&plan.writes[1].bytes, 0), get64(&plan.writes[1].bytes, 8)), (2, lanes[1].queue));
    assert_eq!(plan.writes[4].va, lanes[0].pointers + 0x40);
    assert_eq!((plan.tails.len(), plan.tails[0].1, plan.tails[1].1), (2, 1, 5));
    assert_eq!(plan.messages, vec![0x83_0000_0000_0008]);
    s.flushed();
    assert!(!s.render_failed && s.publications.is_empty());
}

fn compute_job(s: &Session, q: &FirmwareQueues, work: u64) -> ComputeJob {
    let lane = q.lanes.unwrap()[2];
    ComputeJob {
        parameters: compute::Parameters {
            cdm: START,
            cdm_end: START + 0x100,
            sampler: 0,
            sampler_count: 0,
            scratch: 0x20_0000_0000,
            marker: 0x20_0002_0000,
            resource: 0,
        },
        addresses: compute_addresses(s.compute_publication, q.compute_count, work, &lane, 37, 1),
        owner: 7,
        timestamps: [0x5000_0000, 0x5000_0008, 0, 0],
        dependencies: [None, Some(Stamp { address: 0x900, value: 0x100, event: 3 })],
    }
}

#[test]
fn computes_are_published() {
    let mut s = Session::new();
    let mut q = queue();
    let work = WORK_BASE + 0x100000;
    assert_eq!(compute_alias(work), Ok(0x71_0010_0000));
    assert_eq!(compute_alias(WORK_BASE + 0x1_0000_0000), Err(Error::ENOSPC));
    assert_eq!((s.check_compute(2), s.check_compute(1)), (Ok(()), Err(Error::EINVAL)));
    let job = compute_job(&s, &q, work);
    assert_eq!((job.addresses.stamp, job.addresses.identity, job.addresses.register_table), (0x100, 1 << 32 | 1, 0x71_0010_0020));
    let (writes, receipt) = s.submit_compute_queue(&mut q, &job, 5, 1000).unwrap();
    let lanes = lanes_at(WORK_BASE);
    assert_eq!((receipt.id, receipt.stamp.address, receipt.stamp.value), (work, lanes[2].pointers + 0x1040, 0x100));
    assert_eq!(get32(&writes[0].bytes, 0), 1);
    assert!(writes.iter().any(|w| w.va == lanes[2].ring && get64(&w.bytes, 0) == work + 0x1900));
    assert!(writes.iter().any(|w| w.va == lanes[2].ring + 8 && get64(&w.bytes, 0) == work));
    assert_eq!((q.pending, q.compute_count, q.lanes.unwrap()[2].head), (1, 1, 2));
    assert_eq!((s.flights.len(), s.flights[0].channels[0], s.flights[0].queues[0]), (1, Some((8, 6)), Some((lanes[2].pointers, 2))));
    assert!(!s.render_failed && s.batch_works == 1 && s.compute_publication == 1);
    let bad = ComputeJob { parameters: compute::Parameters { cdm: 0, ..job.parameters }, ..job };
    assert_eq!(s.submit_compute_queue(&mut q, &bad, 5, 1000).err(), Some(Error::EINVAL));
    assert!(s.render_failed);
    assert_eq!(s.check_compute(2), Err(Error::EIO));
}

#[test]
fn a_bad_cursor_quarantines() {
    let mut s = Session::new();
    let mut q = queue();
    let job = compute_job(&s, &q, WORK_BASE + 0x100000);
    assert_eq!(s.submit_compute_queue(&mut q, &job, 256, 0).err(), Some(Error::EIO));
    assert!(s.render_failed && s.flights.is_empty() && q.pending == 0);
    let mut s = Session::new();
    q.lanes = None;
    assert_eq!(s.submit_compute_queue(&mut q, &job, 0, 0).err(), Some(Error::EIO));
}

fn parameters() -> render::Parameters {
    let mut p = render::Parameters::default();
    p.set_private(START, START + 0x2000_0000).unwrap();
    p.width = 64;
    p.height = 48;
    p.layers = 1;
    p.utile_width = 32;
    p.utile_height = 32;
    p.samples = 1;
    p.tib_blocks = 2;
    p.encoder = START + 0x100;
    p
}

fn render_job(q: &FirmwareQueues, pool: &Tvb, support: &Support, work: u64, scene: u32, context: u32) -> RenderJob {
    let mut p = parameters();
    select_scene(&mut p, pool, scene);
    let lanes = q.lanes.unwrap();
    let a = render_addresses(pool, scene, &lanes, (35, 36), q.render_count, support.address(), &p, work, context, &[0, 0, 0, 0]);
    RenderJob {
        parameters: p,
        addresses: a,
        work,
        owner: 7,
        root: pool.root,
        scene,
        dependencies: [None, None],
        ratio: (0x3f80_0000, 0x3f80_0000),
    }
}

#[test]
fn renders_are_published() {
    let mut s = Session::new();
    let mut q = queue();
    let mut pool = Tvb::new(0x8000, WORK_BASE + 0x200000, 9);
    let mut support = Support { index: 2, growth_base: 0, submissions: 0 };
    let work = WORK_BASE + 0x100000;
    assert_eq!(render_alias(work), Ok(0x72_0010_0000));
    assert_eq!(render_alias(WORK_BASE + 0x1_0000_0000), Err(Error::ENOSPC));
    assert_eq!(s.check_render(&parameters(), 3), Ok(()));
    assert_eq!(s.check_render(&parameters(), 1), Err(Error::EINVAL));
    assert_eq!(s.check_render(&render::Parameters::default(), 3), Err(Error::EINVAL));
    let scene = pool.reserve_scene().unwrap();
    let job = render_job(&q, &pool, &support, work, scene, 9);
    assert_eq!((job.parameters.cycle, job.parameters.tiling_admission), (0x240000, 9));
    assert_eq!((job.addresses.fragment_stamp, job.addresses.tiling_stamp, job.addresses.tiling_counter), (0x100, 0xc00, 1));
    assert_eq!((job.addresses.tiling_driver_stamp, job.addresses.event_control), (work + 0x18000, work + 0x200));
    let (writes, receipt) = s.submit_render_pool(&mut q, &mut pool, &mut support, &job, &[3, 4], 50).unwrap();
    assert_eq!((receipt.id, receipt.stamp.value, receipt.stamp.event), (work, 0x100, 36));
    assert_eq!((writes[0].va, get32(&writes[0].bytes, 0)), (support.address() + 0x1000, 2));
    let lanes = lanes_at(WORK_BASE);
    assert!(writes.iter().any(|w| w.va == lanes[0].ring + 8 && get64(&w.bytes, 0) == job.addresses.tiling_work));
    assert_eq!((pool.initialized, support.submissions, q.render_count), (true, 2, 1));
    assert_eq!((q.lanes.unwrap()[0].head, q.lanes.unwrap()[1].head), (2, 2));
    assert_eq!(s.flights[0].channels, [Some((6, 4)), Some((7, 5))]);
    let again = render_job(&q, &pool, &support, work + 0x1c000, scene, 9);
    s.submit_render_pool(&mut q, &mut pool, &mut support, &again, &[3, 4], 60).unwrap();
    assert_eq!((q.lanes.unwrap()[0].head, q.lanes.unwrap()[1].head), (3, 4));
    assert_eq!(s.publications.len(), 2);
    assert_eq!(next_head(0x4ff, 2, 0, false), 2);
    let bad = RenderJob { parameters: render::Parameters::default(), ..again };
    assert_eq!(s.submit_render_pool(&mut q, &mut pool, &mut support, &bad, &[3, 4], 60).err(), Some(Error::EINVAL));
    assert!(s.render_failed);
}

#[test]
fn abandoned_scenes_come_back() {
    let mut s = Session::new();
    s.tvb_pools.push(Tvb::new(0x8000, WORK_BASE, 9));
    assert_eq!(s.tvb_pools[0].reserve_scene(), Ok(0));
    s.abandon_render(0x9000, 0);
    assert!(s.tvb_pools[0].scenes[0]);
    s.abandon_render(0x8000, 0);
    assert!(!s.tvb_pools[0].scenes[0]);
    assert_eq!(s.tvb_pools[0].reserve_scene(), Ok(0));
    s.poison();
    s.abandon_render(0x8000, 0);
    assert!(s.tvb_pools[0].scenes[0]);
}

fn done(s: &Session, i: usize) -> Progress {
    let f = &s.flights[i];
    let value = |x: &Option<Stamp>| x.map_or(0, |x| x.value);
    let target = |x: &Option<(u64, u32)>| x.map_or((0, 0), |x| (x.1, x.1));
    let channel = |x: &Option<(usize, u32)>| x.map_or((0, 0), |x| (x.1, x.1));
    Progress {
        stamps: [value(&f.stamps[0]), value(&f.stamps[1])],
        driver_stamps: [value(&f.driver_stamps[0]), value(&f.driver_stamps[1])],
        submitted: 0,
        queues: [target(&f.queues[0]), target(&f.queues[1])],
        channels: [channel(&f.channels[0]), channel(&f.channels[1])],
        replies: (3, 3, 3),
    }
}

fn outstanding() -> (Session, FirmwareQueues) {
    let mut s = Session::new();
    let mut q = queue();
    s.queue_events = 0b10;
    let (context, _) = s.contexts.acquire(roots(0x8000), 9).unwrap();
    let mut pool = Tvb::new(0x8000, WORK_BASE + 0x200000, 9);
    let mut support = Support { index: 2, growth_base: 0, submissions: 0 };
    let scene = pool.reserve_scene().unwrap();
    let job = render_job(&q, &pool, &support, WORK_BASE + 0x100000, scene, context);
    s.submit_render_pool(&mut q, &mut pool, &mut support, &job, &[3, 4], 50).unwrap();
    s.tvb_pools.push(pool);
    (s, q)
}

#[test]
fn work_retires_once_nothing_uses_it() {
    let (mut s, mut q) = outstanding();
    let seen = done(&s, 0);
    let f = &s.flights[0];
    assert_eq!(f.notifier(), WORK_BASE + 0x100000 + 0x294);
    assert!(f.done(&seen) && f.stamps_done(&seen));
    for late in [
        Progress { stamps: [0, 0], ..seen },
        Progress { driver_stamps: [0, 0], ..seen },
        Progress { submitted: 1, ..seen },
        Progress { queues: [(0, 0), (0, 0)], ..seen },
        Progress { channels: [(3, 3), (4, 4)], ..seen },
        Progress { replies: (2, 3, 3), ..seen },
    ] {
        assert!(!f.done(&late));
    }
    assert_eq!(s.find_retired(&vec![Progress { submitted: 1, ..seen }]), Ok(None));
    assert_eq!(s.find_retired(&vec![seen]), Ok(Some(0)));
    let r = s.retire(0, 99).unwrap();
    assert_eq!((r.id, r.owner, r.limited), (WORK_BASE + 0x100000, 7, false));
    assert!(s.flights.is_empty() && !s.tvb_pools[0].scenes[0] && s.contexts.users[9] == 0);
    assert_eq!(s.works.render.free, vec![WORK_BASE + 0x100000]);
    assert_eq!(q.complete(0b10), 0);
    assert_eq!((q.pending, q.events), (0, None));
    s.poison();
    assert_eq!(s.find_retired(&vec![]), Err(Error::EIO));
    let (mut s, _) = outstanding();
    s.tvb_pools.clear();
    assert_eq!(s.retire(0, 99).err(), Some(Error::EIO));
}

#[test]
fn the_watchdog_counts_from_the_last_progress() {
    let (s, _) = outstanding();
    assert_eq!((s.expired(10_049), s.expired(10_050)), (None, Some(0)));
    assert_eq!((s.watchdog_remaining_ms(50), s.watchdog_remaining_ms(10_000), s.watchdog_remaining_ms(20_000)), (10_000, 50, 1));
    assert_eq!(Session::new().watchdog_remaining_ms(7), 10_000);
}

fn event(words: &[u32]) -> Vec<u8> {
    let mut out = vec![0u8; 0x48];
    for (i, w) in words.iter().enumerate() {
        out[4 * i..4 * i + 4].copy_from_slice(&w.to_le_bytes());
    }
    out
}

#[test]
fn event_rings() {
    assert_eq!(next_event(4, 4), Ok(None));
    assert_eq!(next_event(255, 4), Ok(Some(0)));
    assert_eq!(next_event(256, 4), Err(Error::EIO));
    assert_eq!(event_address(2), 0xffff_fc20_0003_f440 + 0x90);
    assert_eq!(reply_address(1), 0xffff_fc20_c04f_5f40);
    assert_eq!(trace_rings()[0], (0xffff_fc20_0003_f3c0, 512));
    assert_eq!(drain_trace_rx(1, 5, 256), Ok(Some(5)));
    assert_eq!((drain_trace_rx(5, 5, 256), drain_trace_rx(5, 256, 256)), (Ok(None), Err(Error::EIO)));
}

#[test]
fn events_find_their_render() {
    let (mut s, _) = outstanding();
    let context = s.flights[0].context;
    assert!(matches!(s.classify(&event(&[1]), &vec![0]), EventAction::Skip));
    assert!(matches!(s.classify(&event(&[6, context, 9]), &vec![0]), EventAction::Render(0)));
    assert!(matches!(s.classify(&event(&[6, context, 9]), &vec![0x100]), EventAction::Unknown));
    assert!(matches!(s.classify(&event(&[6, context, 8]), &vec![0]), EventAction::Unknown));
    assert!(matches!(s.classify(&event(&[7, 0, 1, 36, 0x100]), &vec![0x100]), EventAction::Render(0)));
    assert!(matches!(s.classify(&event(&[13]), &vec![0]), EventAction::Unknown));
}

#[test]
fn renders_grow_or_end() {
    let (s, _) = outstanding();
    let a = s.flights[0].render.unwrap().addresses;
    let mut pool = Tvb::new(0x8000, WORK_BASE + 0x200000, 9);
    let grow = event(&[6, 9, 9, 0, 5, 77, 1]);
    let act = |e: &[u8], pool: &Tvb, limited, cursors: (u32, u32, u32)| {
        render_action(e, &a, pool, limited, cursors.0, cursors.1, cursors.2)
    };
    assert!(matches!(act(&grow, &pool, false, (0, 0, 0)), Ok(RenderAction::Grow { subpipe: 5, halt_count: 0x1_0000_004d })));
    assert!(matches!(act(&grow, &pool, false, (1, 0, 0)), Ok(RenderAction::Wait)));
    assert!(matches!(act(&grow, &pool, false, (0, 0, 255)), Ok(RenderAction::Wait)));
    assert!(matches!(act(&grow, &pool, false, (256, 0, 0)), Err(Error::EIO)));
    assert!(matches!(act(&event(&[6, 9, 9, 1, 5]), &pool, false, (0, 0, 0)), Err(Error::EIO)));
    assert!(matches!(act(&event(&[6, 9, 9, 0, 64]), &pool, false, (0, 0, 0)), Err(Error::EIO)));
    assert!(matches!(act(&event(&[1]), &pool, false, (0, 0, 0)), Ok(RenderAction::Skip)));
    assert!(matches!(act(&event(&[8]), &pool, false, (0, 0, 0)), Err(Error::EIO)));
    let limit = event(&[7, 0, 1, 36, 0x100]);
    assert!(matches!(act(&limit, &pool, false, (0, 0, 0)), Err(Error::EIO)));
    let reply = pool.growth_reply(9, false, 5, 0x1_0000_004d).unwrap();
    assert_eq!((get32(&reply, 0), get32(&reply, 4), get32(&reply, 8), get32(&reply, 12)), (8, 0, 9, 9));
    assert_eq!((get32(&reply, 16), get32(&reply, 20), get64(&reply, 24)), (0, 5, 0x1_0000_004d));
    assert_eq!((pool.refused, pool.counter), (true, 1));
    assert!(matches!(act(&limit, &pool, false, (0, 0, 0)), Ok(RenderAction::Limit)));
    assert!(matches!(act(&limit, &pool, true, (0, 0, 0)), Err(Error::EIO)));
    let end = limit_reply(&a);
    assert_eq!((get32(&end, 0), get32(&end, 4), get64(&end, 8), get32(&end, 16)), (9, 1, a.fragment_queue, 0x100));
    pool.counter = u32::MAX;
    assert_eq!(pool.growth_reply(9, true, 0, 0).err(), Some(Error::EIO));
}

#[test]
fn outstanding_work_keeps_its_context() {
    let mut s = Session::new();
    let mut q = queue();
    for i in 0..2u64 {
        assert_eq!(s.contexts.acquire(roots(0x10000), 1), Ok((1, i == 0)));
        let job = compute_job(&s, &q, WORK_BASE + 0x100000 + i * 0x8000);
        s.submit_compute_queue(&mut q, &job, 5, 0).unwrap();
    }
    assert_eq!(s.contexts.users[1], 2);
    assert_eq!(s.begin_release(0x10000), Err(Error::EBUSY));
    assert_ne!(s.contexts.acquire(roots(0x20000), 1).unwrap().0, 1);
    s.retire(0, 1).unwrap();
    assert_eq!((s.begin_release(0x10000), s.contexts.users[1]), (Err(Error::EBUSY), 1));
    s.retire(0, 2).unwrap();
    assert_eq!(s.works.compute.free, vec![WORK_BASE + 0x100000, WORK_BASE + 0x108000]);
    assert_eq!(s.begin_release(0x10000), Ok(Some(1)));
}
