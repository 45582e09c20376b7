use asahi_m4::client::{
    check_gem_create, check_queue_create, check_vm_create, get_time, FileState, TimestampBuffer,
};
use asahi_m4::client_stamps::{check_bind, check_unbind, page_span};
use asahi_m4::commands::{
    check_attachment, check_bind_object, check_bind_record, check_submit, check_vm_bind, parse_sync,
    resolve_barriers, BindAction, CommandKind, Header, Stream, NO_BARRIER,
};
use asahi_m4::error::Error;
use asahi_m4::lanes::Stamp;
use asahi_m4::mapping::Mapping;
use asahi_m4::params::{ComputeCommand, Helper, RenderFlags};
use asahi_m4::submission::{ClientCommand, TimestampRef};

#[test]
fn requests_are_checked() {
    let start = 0x10_0000_0000;
    assert_eq!(check_vm_create(0, start, start + 0x2000_0000), Ok(()));
    assert_eq!(check_vm_create(1, start, start + 0x2000_0000), Err(Error::EINVAL));
    assert_eq!(check_vm_create(0, start, start + 0x1fff_c000), Err(Error::EINVAL));
    assert_eq!(check_vm_create(0, start + 1, start + 0x3000_0000), Err(Error::EINVAL));
    assert_eq!(check_vm_create(0, 0, 0x4000_0000), Err(Error::EINVAL));
    assert_eq!(check_vm_create(0, start, 0x3ff_ffff_c000), Err(Error::EINVAL));
    assert_eq!(check_queue_create(0, 1, 0x100_0000_0000), Ok(()));
    assert_eq!(check_queue_create(0, 2, 0x100_0000_0000), Err(Error::EINVAL));
    assert_eq!(check_queue_create(1, 0, 0x100_0000_0000), Err(Error::EINVAL));
    assert_eq!(check_queue_create(0, 0, 0), Err(Error::EINVAL));
    assert_eq!(check_gem_create(0, 3, 2, 0, 1, 0), Ok((0x4000, false)));
    assert_eq!(check_gem_create(2, 3, 2, 5, 0x4001, 0), Ok((0x8000, true)));
    assert_eq!(check_gem_create(0, 3, 2, 5, 0x4000, 0), Err(Error::EINVAL));
    assert_eq!(check_gem_create(4, 3, 2, 0, 0x4000, 0), Err(Error::EINVAL));
    assert_eq!(check_gem_create(0, 3, 2, 0, 0, 0), Err(Error::EINVAL));
    assert_eq!(check_gem_create(0, 3, 2, 0, u64::MAX, 0), Err(Error::EINVAL));
    assert_eq!(get_time(0, 24_000_001, 24_000_000), Ok(1_000_000_041));
    assert_eq!(get_time(1, 1, 24_000_000), Err(Error::EINVAL));
    assert_eq!(get_time(0, 1, 0), Err(Error::EIO));
}

#[test]
fn handles_live_as_long_as_they_are_used() {
    let mut f = FileState::new();
    assert_eq!(f.vm_create(0x10_0000_0000, 0x10_2000_0000), Ok(1));
    assert_eq!(f.vm_create(0x10_0000_0000, 0x10_2000_0000), Ok(2));
    assert_eq!(f.queue_create(3, 0), Err(Error::ENOENT));
    assert_eq!(f.queue_create(1, 1), Ok(1));
    assert_eq!(f.queues[0].priority, 2);
    assert!(f.vm_in_use(1) && !f.vm_in_use(2));
    assert_eq!(f.vm_destroy(1, 1), Err(Error::EINVAL));
    assert_eq!(f.vm_destroy(0, 1), Ok(None));
    assert_eq!(f.vm_destroy(0, 1), Err(Error::ENOENT));
    assert_eq!((f.find_vm(1, true), f.find_vm(1, false)), (None, Some(0)));
    assert_eq!(f.queue_create(1, 0), Err(Error::ENOENT));
    assert_eq!(f.orphan(1), None);
    assert_eq!(f.queue_destroy(1, 1), Err(Error::EINVAL));
    assert_eq!(f.queue_destroy(0, 1), Ok(1));
    assert_eq!(f.queue_destroy(0, 1), Err(Error::ENOENT));
    assert_eq!(f.orphan(1), Some(0));
    f.remove_vm(0);
    assert_eq!((f.vms.len(), f.vms[0].id), (1, 2));
    assert_eq!(f.vm_destroy(0, 2), Ok(Some(0)));
    f.next_vm = u32::MAX;
    assert_eq!(f.vm_create(0x10_0000_0000, 0x10_2000_0000), Err(Error::ENOSPC));
}

#[test]
fn timestamp_buffers_are_bound() {
    assert_eq!(check_bind(1, 1, 0x4000, 0x4000), Ok(()));
    assert_eq!(check_bind(0, 1, 0x4000, 0x4000), Err(Error::EINVAL));
    assert_eq!(check_bind(1, 1, 0x4008, 0x4000), Err(Error::EINVAL));
    assert_eq!(check_bind(1, 1, 0x4000, 0), Err(Error::EINVAL));
    assert_eq!(check_unbind(0, 0, 0, 0), Ok(()));
    assert_eq!(check_unbind(0, 0, 0, 1), Err(Error::EINVAL));
    assert_eq!(page_span(0x4000, 0x4000, 0xc000), Ok((0x4000, 0x4000)));
    assert_eq!(page_span(0x4010, 0x4000, 0xc000), Ok((0x4000, 0x8000)));
    assert_eq!(page_span(0x8000, 0x8000, 0xc000), Err(Error::EINVAL));
}

fn stamps() -> FileState {
    let mut f = FileState::new();
    assert_eq!(f.next_timestamp_id(), Ok(1));
    f.add_timestamp(TimestampBuffer { id: 1, base: 0x5000_0000, extent: 0x4000, address: 0x5000_0000, size: 0x4000 });
    f
}

#[test]
fn timestamp_slots_are_resolved() {
    let mut f = stamps();
    assert_eq!(f.resolve_timestamp(0, 0), Ok(0));
    assert_eq!(f.resolve_timestamp(0, 8), Err(Error::EINVAL));
    assert_eq!(f.resolve_timestamp(1, 0x3ff8), Ok(0x5000_3ff8));
    assert_eq!(f.resolve_timestamp(1, 0x4000), Err(Error::EINVAL));
    assert_eq!(f.resolve_timestamp(1, 4), Err(Error::EINVAL));
    assert_eq!(f.resolve_timestamp(2, 0), Err(Error::ENOENT));
    assert_eq!(f.drop_timestamp(2), Err(Error::ENOENT));
    assert_eq!(f.drop_timestamp(1), Ok(()));
    assert_eq!(f.resolve_timestamp(1, 0), Err(Error::ENOENT));
    f.next_timestamp = u32::MAX;
    assert_eq!(f.next_timestamp_id(), Err(Error::ENOSPC));
}

fn header(kind: CommandKind, size: u16, barriers: (u16, u16)) -> Header {
    Header { kind: Some(kind), size, vdm_barrier: barriers.0, cdm_barrier: barriers.1 }
}

#[test]
fn command_streams_are_parsed() {
    let none = (NO_BARRIER, NO_BARRIER);
    let mut s = Stream::new(8 + 16 + 8 + 24 + 8 + 4);
    assert_eq!(s.next_header(), Ok(Some(0)));
    assert_eq!(s.finish(), Err(Error::EINVAL));
    assert_eq!(s.accept(&header(CommandKind::Render, 200, none)), Err(Error::EINVAL));
    assert_eq!(s.accept(&Header { kind: None, size: 0, vdm_barrier: 0, cdm_barrier: 0 }), Err(Error::ENOTSUPP));
    assert_eq!(s.accept(&header(CommandKind::Render, 16, (1, 0))), Err(Error::EINVAL));
    assert_eq!(s.accept(&header(CommandKind::Render, 16, (0, 0))), Ok((8, 24)));
    assert_eq!(s.accept(&header(CommandKind::Attachments, 24, (0, NO_BARRIER))), Err(Error::EINVAL));
    assert_eq!(s.accept(&header(CommandKind::Attachments, 20, none)), Err(Error::EINVAL));
    assert_eq!(s.accept(&header(CommandKind::Attachments, 24, none)), Ok((32, 56)));
    assert_eq!(s.accept(&header(CommandKind::Compute, 4, (2, 0))), Err(Error::EINVAL));
    assert_eq!(s.accept(&header(CommandKind::Compute, 4, (1, 0))), Ok((64, 68)));
    assert_eq!(s.next_header(), Ok(None));
    assert_eq!(s.finish(), Ok(()));
    let short = Stream::new(7);
    assert_eq!(short.next_header(), Err(Error::EINVAL));
    let mut long = Stream::new(65 * 8);
    for _ in 0..64 {
        long.accept(&header(CommandKind::Compute, 0, none)).unwrap();
    }
    assert_eq!(long.accept(&header(CommandKind::Compute, 0, none)), Err(Error::EINVAL));
}

#[test]
fn submissions_and_attachments_are_checked() {
    assert_eq!(check_submit(0, 0, 0x10_0000, 4096, 4096), Ok(()));
    assert_eq!(check_submit(0, 0, 0x10_0001, 0, 0), Err(Error::EINVAL));
    assert_eq!(check_submit(0, 0, 0, 0, 0), Err(Error::EINVAL));
    assert_eq!(check_submit(0, 0, 8, 4097, 0), Err(Error::EINVAL));
    assert_eq!(check_submit(1, 0, 8, 0, 0), Err(Error::EINVAL));
    assert_eq!(check_attachment(0, 0, 0x1000, 16), Ok(()));
    assert_eq!(check_attachment(1, 0, 0x1000, 16), Err(Error::EINVAL));
    assert_eq!(check_attachment(0, 0, u64::MAX, 1), Err(Error::EINVAL));
}

#[test]
fn sync_records_are_parsed() {
    let record = |kind: u32, handle: u32, point: u64| {
        let mut r = vec![0u8; 16];
        r[..4].copy_from_slice(&kind.to_le_bytes());
        r[4..8].copy_from_slice(&handle.to_le_bytes());
        r[8..].copy_from_slice(&point.to_le_bytes());
        parse_sync(&r)
    };
    let r = record(1, 7, 9).unwrap();
    assert_eq!((r.timeline, r.handle, r.point), (true, 7, 9));
    assert!(!record(0, 7, 0).unwrap().timeline);
    assert_eq!(record(0, 7, 9).err(), Some(Error::EINVAL));
    assert_eq!(record(2, 7, 0).err(), Some(Error::EINVAL));
}

#[test]
fn barriers_name_completions() {
    let stamp = |value: u32| Some(Stamp { address: 8, value, event: 1 });
    let renders = vec![None, stamp(1)];
    let computes = vec![stamp(2)];
    assert_eq!(resolve_barriers(&renders, &computes, (1, 0)), Ok([stamp(1), stamp(2)]));
    assert_eq!(resolve_barriers(&renders, &computes, (NO_BARRIER, NO_BARRIER)), Ok([None, None]));
    assert_eq!(resolve_barriers(&renders, &computes, (2, 0)), Err(Error::EIO));
    assert_eq!(resolve_barriers(&renders, &computes, (0, 1)), Err(Error::EIO));
}

#[test]
fn bind_records_are_checked() {
    let kernel = (0x10_0000_0000, 0x10_2000_0000);
    let check = |flags, handle, offset, size, address| check_bind_record(flags, handle, offset, size, address, kernel.0, kernel.1);
    assert_eq!(check(1, 0, 0, 0x4000, 0x8000), Ok(BindAction::Unbind));
    assert_eq!(check(1, 3, 0, 0x4000, 0x8000), Err(Error::EINVAL));
    assert_eq!(check(6, 3, 0x4000, 0x4000, 0x8000), Ok(BindAction::Bind { read: true, write: true, single: false }));
    assert_eq!(check(10, 3, 0, 0x4000, 0x8000), Ok(BindAction::Bind { read: true, write: false, single: true }));
    assert_eq!(check(8, 3, 0, 0x4000, 0x8000), Err(Error::EINVAL));
    assert_eq!(check(0x12, 3, 0, 0x4000, 0x8000), Err(Error::EINVAL));
    assert_eq!(check(6, 3, 0, 0x4001, 0x8000), Err(Error::EINVAL));
    assert_eq!(check(6, 3, 0, 0, 0x8000), Err(Error::EINVAL));
    assert_eq!(check(6, 3, 0, 0x4000, 0), Err(Error::EINVAL));
    assert_eq!(check(6, 3, 0, 0x4000, kernel.0), Err(Error::EINVAL));
    assert!(check(6, 3, 0, 0x4000, kernel.1).is_ok());
    assert_eq!(check(6, 3, 0, 0x4000, 0x3ff_ffff_8000), Err(Error::EINVAL));
    assert_eq!(check_vm_bind(0, 4, 40), Ok(160));
    assert_eq!(check_vm_bind(0, 4, 0), Err(Error::EINVAL));
    assert_eq!(check_vm_bind(0, 4097, 1), Err(Error::EINVAL));
    assert_eq!(check_vm_bind(0, 4096, 257), Err(Error::EINVAL));
    assert_eq!(check_bind_object((0, 0), 1, 9, 0, 0x4000, false, 0x4000), Ok(()));
    assert_eq!(check_bind_object((1, 9), 1, 9, 0, 0x4000, false, 0x4000), Ok(()));
    assert_eq!(check_bind_object((1, 8), 1, 9, 0, 0x4000, false, 0x4000), Err(Error::EINVAL));
    assert_eq!(check_bind_object((0, 0), 1, 9, 0x4000, 0x4000, false, 0x4000), Err(Error::EINVAL));
    assert_eq!(check_bind_object((0, 0), 1, 9, 0, 0x4_0000, true, 0x4000), Ok(()));
}

const FLAGS: RenderFlags = RenderFlags { process_empty_tiles: 1, dbias_is_int: 2 };

fn compute(handle: u32) -> ClientCommand {
    ClientCommand::Compute(
        ComputeCommand {
            flags: 0,
            helper: Helper { binary: 0, cfg: 0, data: 0 },
            cdm_ctrl_stream_base: 0x10_4000_0000,
            cdm_ctrl_stream_end: 0x10_4000_0100,
            sampler_heap: 0,
            sampler_count: 0,
        },
        [TimestampRef { handle, offset: 0 }, TimestampRef { handle: 0, offset: 0 }],
    )
}

#[test]
fn submissions_are_planned() {
    let mut f = stamps();
    f.vm_create(0x10_0000_0000, 0x10_2000_0000).unwrap();
    f.queue_create(1, 0).unwrap();
    f.vms[0].mappings.push(Mapping {
        start: 0x10_4000_0000,
        end: 0x10_4000_4000,
        permissions: 6,
        offset: 0,
        single: false,
        object: 1,
    });
    let plan = |f: &FileState, queue, commands: Vec<ClientCommand>, attachments: Vec<(u64, u64)>| {
        f.plan_submission(queue, &commands, &attachments, &FLAGS, false, false)
    };
    let s = plan(&f, 1, vec![compute(1), compute(0)], vec![(0x10_4000_0000, 0x100)]).unwrap();
    assert_eq!((s.vm, s.render_setup, s.compute_setup), (0, false, true));
    assert_eq!(s.timestamps, vec![[0x5000_0000, 0, 0, 0], [0; 4]]);
    assert_eq!(plan(&f, 2, vec![compute(0)], vec![]).err(), Some(Error::ENOENT));
    assert_eq!(plan(&f, 1, vec![compute(7)], vec![]).err(), Some(Error::ENOENT));
    assert_eq!(plan(&f, 1, vec![compute(0)], vec![(0x10_5000_0000, 0x100)]).err(), Some(Error::EINVAL));
    let gone = f.plan_submission(1, &vec![compute(0)], &vec![], &FLAGS, true, false);
    assert_eq!(gone.err(), Some(Error::EIO));
    let gone = f.plan_submission(1, &vec![compute(0)], &vec![], &FLAGS, false, true);
    assert_eq!(gone.err(), Some(Error::EIO));
    f.vms[0].begin_setup();
    assert_eq!(plan(&f, 1, vec![compute(0)], vec![]).err(), Some(Error::EIO));
    f.vms[0].finish_setup(false);
    assert!(!plan(&f, 1, vec![compute(0)], vec![]).unwrap().compute_setup);
}
