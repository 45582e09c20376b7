use asahi_m4::commands::NO_BARRIER;
use asahi_m4::engine::{dropped, may_run, may_start, Command, Engine, Job, MAX_ADMITTED};
use asahi_m4::error::Error;
use asahi_m4::lanes::Stamp;
use asahi_m4::submit::Receipt;

fn stamp(value: u32) -> Stamp {
    Stamp { address: 0x1000, value, event: 1 }
}

fn compute(barriers: (u16, u16)) -> Command {
    Command { compute: true, barriers }
}

fn receipt(id: u64) -> Result<Receipt, Error> {
    Ok(Receipt { id, stamp: stamp(id as u32) })
}

const NONE: (u16, u16) = (NO_BARRIER, NO_BARRIER);

#[test]
fn one_worker_is_started() {
    let mut e = Engine::new();
    assert!(e.enqueue(Job::new(1, 9, vec![compute(NONE)])));
    assert!(!e.enqueue(Job::new(2, 9, vec![compute(NONE)])));
    assert!(!e.rest());
    let jobs = e.fail();
    assert_eq!((jobs.len(), jobs[1].id, e.running), (2, 2, false));
    assert!(e.rest());
}

#[test]
fn barriers_reach_earlier_work() {
    let mut e = Engine::new();
    e.enqueue(Job::new(1, 9, vec![compute((0, 0)), compute((NO_BARRIER, 1)), compute((0, 2))]));
    let mut pass = e.open_pass();
    let last = [Some(stamp(70)), Some(stamp(80))];
    for k in 0..3u64 {
        let i = e.next_job(&mut pass).unwrap();
        let r = e.prepare(i, last).unwrap();
        assert_eq!((r.command, r.compute), (k as usize, true));
        let expected = match k {
            0 => [Some(stamp(70)), Some(stamp(80))],
            1 => [None, Some(stamp(100))],
            _ => [Some(stamp(70)), Some(stamp(101))],
        };
        assert_eq!(r.dependencies, expected);
        assert_eq!(e.answered(&mut pass, i, receipt(100 + k), false), Ok(()));
    }
    assert_eq!(e.next_job(&mut pass), None);
    assert_eq!((pass.admitted, pass.progress), (3, true));
    assert!(e.finished().is_none());
    for k in 0..3u64 {
        assert_eq!(e.retired(100 + k, Ok(())), Ok(()));
    }
    assert_eq!(e.retired(100, Ok(())), Err(Error::EIO));
    let job = e.finished().unwrap();
    assert_eq!((job.id, job.error), (1, None));
}

#[test]
fn queues_keep_their_order() {
    let mut e = Engine::new();
    e.enqueue(Job::new(1, 9, vec![compute(NONE), compute(NONE)]));
    e.enqueue(Job::new(2, 9, vec![compute(NONE)]));
    e.enqueue(Job::new(3, 8, vec![compute(NONE)]));
    let mut pass = e.open_pass();
    let mut order = vec![];
    let mut id = 50;
    while let Some(i) = e.next_job(&mut pass) {
        order.push(e.jobs[i].id);
        e.prepare(i, [None, None]).unwrap();
        e.answered(&mut pass, i, receipt(id), false).unwrap();
        id += 1;
    }
    assert_eq!(order, vec![1, 3, 1, 2]);
}

#[test]
fn refused_work_is_tried_again_or_fails() {
    let mut e = Engine::new();
    e.enqueue(Job::new(1, 9, vec![compute(NONE)]));
    let mut pass = e.open_pass();
    let i = e.next_job(&mut pass).unwrap();
    e.prepare(i, [None, None]).unwrap();
    assert_eq!(e.answered(&mut pass, i, Err(Error::EBUSY), false), Ok(()));
    assert_eq!((pass.progress, e.jobs[0].error, e.next_job(&mut pass)), (false, None, None));
    let mut pass = e.open_pass();
    let i = e.next_job(&mut pass).unwrap();
    assert_eq!(e.answered(&mut pass, i, Err(Error::ENOMEM), false), Ok(()));
    assert_eq!(e.finished().unwrap().error, Some(Error::ENOMEM));
    e.enqueue(Job::new(2, 9, vec![compute(NONE)]));
    let mut pass = e.open_pass();
    let i = e.next_job(&mut pass).unwrap();
    e.prepare(i, [None, None]).unwrap();
    assert_eq!(e.answered(&mut pass, i, Err(Error::EINVAL), true), Err(Error::EINVAL));
}

#[test]
fn failures_of_the_firmware_reach_the_job() {
    let mut e = Engine::new();
    e.enqueue(Job::new(1, 9, vec![compute(NONE), compute(NONE)]));
    let mut pass = e.open_pass();
    let i = e.next_job(&mut pass).unwrap();
    e.prepare(i, [None, None]).unwrap();
    e.answered(&mut pass, i, receipt(5), false).unwrap();
    assert_eq!(e.retired(5, Err(Error::ENOMEM)), Ok(()));
    let job = e.finished().unwrap();
    assert_eq!((job.error, job.next), (Some(Error::ENOMEM), 1));
}

#[test]
fn a_pass_is_bounded() {
    let mut e = Engine::new();
    e.enqueue(Job::new(1, 9, vec![compute(NONE); 64]));
    e.enqueue(Job::new(2, 8, vec![compute(NONE); 64]));
    let mut pass = e.open_pass();
    let mut count = 0;
    while let Some(i) = e.next_job(&mut pass) {
        e.prepare(i, [None, None]).unwrap();
        e.answered(&mut pass, i, receipt(1000 + count), false).unwrap();
        count += 1;
    }
    assert_eq!(count, u64::from(MAX_ADMITTED));
    assert_eq!((e.jobs[0].next, e.jobs[1].next), (32, 32));
}

#[test]
fn the_worker_may_run() {
    assert_eq!(may_run(Ok(()), Ok(4), false), Ok(4));
    assert_eq!(may_run(Err(Error::ETIMEDOUT), Ok(4), false), Err(Error::ETIMEDOUT));
    assert_eq!(may_run(Ok(()), Err(Error::EIO), false), Err(Error::EIO));
    assert_eq!(may_run(Ok(()), Ok(4), true), Err(Error::EIO));
    assert_eq!((may_start(false), may_start(true)), (Ok(()), Err(Error::EIO)));
    assert_eq!((dropped(true), dropped(false)), (None, Some(Error::ECANCELED)));
}
