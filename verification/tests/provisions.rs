use asahi_m4::admission::channel_registers;
use asahi_m4::bootclient::{open_device, window_pages, DEVICE_FRAMES};
use asahi_m4::client_stamps::check_stamp_request;
use asahi_m4::cmdbuf::{read_commands, Codes, Entry};
use asahi_m4::commands::{bind_access, CommandKind};
use asahi_m4::error::Error;
use asahi_m4::events::next_reply;
use asahi_m4::flights::{Cursors, Refusal, Session};
use asahi_m4::fwshare::{show_pages, work_pages};
use asahi_m4::fwspace::FirmwareSpace;
use asahi_m4::growth::growth_address;
use asahi_m4::launch::Support;
use asahi_m4::lanes::{FirmwareQueues, Stamp, WORK_BASE};
use asahi_m4::mapping::Segment;
use asahi_m4::prot::{prot_fw_priv_rw, prot_fw_shared_rw, prot_gpu_shared_ro, prot_gpu_shared_rw, prot_gpu_shared_wo};
use asahi_m4::space::AddressSpace;
use asahi_m4::tables::TableMemory;
use asahi_m4::tvb::{Observed, Region, Tvb};

const ROOT: u64 = 0x81_0000_0000;
const CODES: Codes = Codes { render: 0, compute: 1, vertex: 2, fragment: 3, kernel: 4 };

fn attached(tables: u64) -> (FirmwareSpace, TableMemory) {
    let mut mem = TableMemory::new();
    mem.add_table(ROOT);
    for i in 0..tables {
        mem.free.push(0x80_0000_0000 + i * 0x4000);
    }
    (FirmwareSpace::attach(&mem, ROOT).unwrap(), mem)
}

fn frames(count: u64) -> Vec<u64> {
    (0..count).map(|i| 0x90_0000_0000 + i * 0x4000).collect()
}

#[test]
fn regions_of_a_list_are_allocated_in_order() {
    let (mut s, mut mem) = attached(16);
    let mut f = frames(4);
    let region = |address, size| Region { address, size, prot: prot_fw_shared_rw() };
    let list = vec![region(WORK_BASE, 0x4000), region(WORK_BASE + 0x8000, 0x8000)];
    assert_eq!(s.allocate_all(&mut mem, &mut f, &list), Ok(()));
    assert_eq!((s.regions.len(), f.len()), (2, 1));
    assert_eq!(s.allocate_all(&mut mem, &mut f, &list), Err(Error::EEXIST));
    let more = vec![region(WORK_BASE + 0x10000, 0x4000), region(WORK_BASE + 0x14000, 0x4000)];
    assert_eq!(s.allocate_all(&mut mem, &mut f, &more), Err(Error::ENOMEM));
    assert_eq!((s.regions.len(), f.len()), (3, 0));
    assert_eq!(s.allocate_all(&mut mem, &mut f, &vec![region(WORK_BASE + 8, 0x4000)]), Err(Error::EINVAL));
}

#[test]
fn work_gets_storage_by_batches() {
    let (mut s, mut mem) = attached(64);
    let mut f = frames(2 * 16 + 1);
    let mut session = Session::new();
    let first = session.allocate_work(&mut s, &mut mem, &mut f, false);
    assert_eq!((first, f.len(), session.works.next), (Ok(WORK_BASE), 1, WORK_BASE + 16 * 0x8000));
    let second = session.allocate_work(&mut s, &mut mem, &mut f, false);
    assert_eq!((second, f.len()), (Ok(WORK_BASE + 0x8000), 1));
    // A batch of renders takes 112 frames.
    assert_eq!(session.allocate_work(&mut s, &mut mem, &mut f, true), Err(Error::ENOMEM));
    assert_eq!(session.works.next, WORK_BASE + 16 * 0x8000 + 16 * 0x1c000);
    session.works.next = u64::MAX - 0xffff;
    assert_eq!(session.allocate_work(&mut s, &mut mem, &mut f, true), Err(Error::ENOSPC));
    assert_eq!(session.works.next, u64::MAX - 0xffff);
}

#[test]
fn queues_are_prepared_once() {
    let (mut s, mut mem) = attached(32);
    let mut f = frames(10);
    let mut session = Session::new();
    let mut q = FirmwareQueues::new(2, 0);
    let (writes, done) = session.prepare_queues(&mut s, &mut mem, &mut f, &mut q);
    assert_eq!((done, f.len(), q.events, session.queue_events), (Ok(()), 1, Some(0), 1));
    assert_eq!(q.lanes.unwrap()[1].queue, WORK_BASE + 0xc000);
    // Three writes for each of three queues, then what they share.
    assert_eq!((writes.len(), writes[0].va, writes[0].live), (11, WORK_BASE, false));
    assert_eq!((writes[2].va, writes[2].live, writes[2].bytes.len()), (q.lanes.unwrap()[0].pointers + 0x1040, true, 4));
    assert_eq!(s.regions[0].va, WORK_BASE);
    assert_eq!(s.physical(&mut mem, WORK_BASE), Ok(s.regions[0].pages[0]));
    let (writes, done) = session.prepare_queues(&mut s, &mut mem, &mut f, &mut q);
    assert_eq!((writes.len(), done, session.queue_events), (0, Ok(()), 1));

    session.queue_events = 0xffff_ffff;
    q.events = None;
    assert_eq!(session.prepare_queues(&mut s, &mut mem, &mut f, &mut q).1, Err(Error::EBUSY));
    let mut other = FirmwareQueues::new(3, 0);
    let (writes, done) = session.prepare_queues(&mut s, &mut mem, &mut f, &mut other);
    assert_eq!((writes.len(), done, other.lanes.is_none()), (0, Err(Error::ENOMEM), true));
    session.works.next = u64::MAX;
    assert_eq!(session.prepare_queues(&mut s, &mut mem, &mut f, &mut other).1, Err(Error::ENOSPC));
}

#[test]
fn admission_counts_ring_entries() {
    let mut session = Session::new();
    let mut q = FirmwareQueues::new(2, 0);
    let (mut s, mut mem) = attached(32);
    session.prepare_queues(&mut s, &mut mem, &mut frames(9), &mut q).1.unwrap();
    let mut lanes = q.lanes.unwrap();
    let stamp = Some(Stamp { address: 0x1000, value: 0, event: 0 });
    let seen = [Cursors { read: 0, done: 0, tail: 0, lane_read: 0, lane_done: 0 }; 3];
    // Half of 0x500 entries may be in use: with three more to come, up to 0x27c.
    lanes[0].head = 0x27c;
    q.lanes = Some(lanes);
    assert_eq!(session.admit_render(&q, 0x8000, &[stamp, None], &seen), Ok(()));
    assert_eq!(session.admit_render(&q, 0x8000, &[stamp, stamp], &seen), Err(Refusal::Workqueue));
    let mut pool = Tvb::new(0x8000, WORK_BASE + 0x10_0000, 7);
    pool.initialized = true;
    session.tvb_pools.push(pool);
    assert_eq!(session.admit_render(&q, 0x8000, &[stamp, stamp], &seen), Ok(()));
    assert_eq!(session.admit_render(&q, 0xc000, &[stamp, stamp], &seen), Err(Refusal::Workqueue));
    lanes[2].head = 0x27e;
    q.lanes = Some(lanes);
    assert_eq!(session.admit_compute(&q, 0x8000, &[None, None], &seen), Ok(()));
    assert_eq!(session.admit_compute(&q, 0x8000, &[None, stamp], &seen), Err(Refusal::Workqueue));
    session.poison();
    assert_eq!(session.admit_compute(&q, 0x8000, &[None, None], &seen), Err(Refusal::Failed));
}

#[test]
fn channels_have_registers() {
    assert_eq!(channel_registers(0), [0xd6_4000, 0xd6_4008, 0xd6_0000]);
    assert_eq!(channel_registers(5), [0xd6_4090, 0xd6_4098, 0xd6_0048]);
    assert_eq!(channel_registers(11), [0xd6_40b0, 0xd6_40b8, 0xd6_0058]);
    assert_eq!((next_reply(3), next_reply(255)), (4, 0));
}

#[test]
fn bindings_give_access() {
    assert_eq!(bind_access(true, true), prot_gpu_shared_rw());
    assert_eq!(bind_access(true, false), prot_gpu_shared_ro());
    assert_eq!(bind_access(false, true), prot_gpu_shared_wo());
    assert_ne!(prot_fw_priv_rw(), prot_gpu_shared_rw());
    assert_eq!(check_stamp_request(0, 0), Ok(()));
    assert_eq!(check_stamp_request(1, 0), Err(Error::EINVAL));
    assert_eq!(check_stamp_request(0, 1), Err(Error::EINVAL));
}

fn command(kind: u16, barriers: (u16, u16), payload: &[u8]) -> Vec<u8> {
    let mut out = Vec::new();
    for half in [kind, payload.len() as u16, barriers.0, barriers.1] {
        out.extend_from_slice(&half.to_le_bytes());
    }
    out.extend_from_slice(payload);
    out
}

fn attachment(pointer: u64, size: u64, flags: u32) -> Vec<u8> {
    let mut out = Vec::new();
    out.extend_from_slice(&pointer.to_le_bytes());
    out.extend_from_slice(&size.to_le_bytes());
    out.extend_from_slice(&flags.to_le_bytes());
    out.extend_from_slice(&[0; 4]);
    out
}

const NONE: (u16, u16) = (0xffff, 0xffff);

#[test]
fn command_buffers_are_read() {
    assert_eq!((CODES.kind(1), CODES.kind(4), CODES.kind(5)), (Some(CommandKind::Compute), Some(CommandKind::Attachments), None));
    let mut two = attachment(0x1000, 0x20, 0);
    two.extend(attachment(0x2000, 0x40, 0));
    let mut buffer = command(0, (0, 0xffff), &[7; 20]);
    buffer.extend(command(3, NONE, &two));
    buffer.extend(command(1, (1, 0), &[]));
    let batch = read_commands(&buffer, &CODES).unwrap();
    assert_eq!(
        batch.commands,
        vec![
            Entry { compute: false, start: 8, end: 28, barriers: (0, 0xffff) },
            Entry { compute: true, start: 92, end: 92, barriers: (1, 0) },
        ]
    );
    assert_eq!(batch.attachments, vec![(0x1000, 0x20), (0x2000, 0x40)]);
}

#[test]
fn command_buffers_are_refused() {
    let refused = |buffer: Vec<u8>| read_commands(&buffer, &CODES).err();
    assert_eq!(refused(vec![]), Some(Error::EINVAL));
    assert_eq!(refused(vec![0; 7]), Some(Error::EINVAL));
    assert_eq!(refused(command(2, NONE, &[])), Some(Error::EINVAL));
    assert_eq!(refused(command(9, NONE, &[])), Some(Error::ENOTSUPP));
    // A payload that is cut off comes before an unknown kind.
    let mut cut = command(9, NONE, &[0; 4]);
    cut.pop();
    assert_eq!(refused(cut), Some(Error::EINVAL));
    // Barriers name commands before the one that waits.
    assert_eq!(refused(command(0, (1, 0xffff), &[])), Some(Error::EINVAL));
    assert_eq!(refused(command(1, (0xffff, 1), &[])), Some(Error::EINVAL));
    assert_eq!(refused(command(0, (0, 0), &[])), None);
    assert_eq!(refused(command(2, (0, 0xffff), &[])), Some(Error::EINVAL));
    assert_eq!(refused(command(2, NONE, &[0; 23])), Some(Error::EINVAL));
    assert_eq!(refused(command(2, NONE, &[0; 17 * 24])), Some(Error::EINVAL));
    assert_eq!(refused(command(2, NONE, &attachment(0, 0, 1))), Some(Error::EINVAL));
    assert_eq!(refused(command(2, NONE, &attachment(u64::MAX, 1, 0))), Some(Error::EINVAL));
    let full: Vec<u8> = (0..64).flat_map(|_| command(1, NONE, &[])).collect();
    assert_eq!(refused(full.clone()), None);
    let over: Vec<u8> = full.into_iter().chain(command(0, NONE, &[])).collect();
    assert_eq!(refused(over), Some(Error::EINVAL));
}

#[test]
fn firmware_pages_are_shown_to_clients() {
    let (mut s, mut mem) = attached(32);
    let mut f = frames(3);
    let mut client = AddressSpace::new(&mut mem).unwrap();
    let region = Region { address: WORK_BASE, size: 0xc000, prot: prot_fw_shared_rw() };
    s.allocate_all(&mut mem, &mut f, &vec![region]).unwrap();
    let behind = s.regions[0].pages.clone();
    let pages = work_pages(WORK_BASE, true).unwrap();
    assert_eq!(pages, vec![(0x72_0000_0000, WORK_BASE), (0x72_0000_4000, WORK_BASE + 0x8000)]);
    assert_eq!(show_pages(&mut client, &mut s, &mut mem, &pages), Ok(()));
    assert_eq!(client.low.translate(&mut mem, 0x72_0000_0000), Ok(Some(behind[0])));
    assert_eq!(client.low.translate(&mut mem, 0x72_0000_4008), Ok(Some(behind[2] + 8)));
    assert_eq!(client.low.translate(&mut mem, 0x72_0000_8000), Ok(None));
    // A page can be shown in place of another one.
    assert_eq!(show_pages(&mut client, &mut s, &mut mem, &vec![(0x72_0000_0000, WORK_BASE + 0x4000)]), Ok(()));
    assert_eq!(client.low.translate(&mut mem, 0x72_0000_0000), Ok(Some(behind[1])));
    let outside = vec![(0x71_0000_0000, WORK_BASE), (0x71_0000_4000, WORK_BASE + 0xc000)];
    assert_eq!(show_pages(&mut client, &mut s, &mut mem, &outside), Err(Error::EINVAL));
    assert_eq!(client.low.translate(&mut mem, 0x71_0000_0000), Ok(Some(behind[0])));
    mem.free.clear();
    assert_eq!(show_pages(&mut client, &mut s, &mut mem, &vec![(0x10_0000_0000, WORK_BASE)]), Err(Error::ENOMEM));
    assert_eq!(work_pages(WORK_BASE + 0x8000, false), Ok(vec![(0x71_0000_8000, WORK_BASE + 0x8000)]));
    assert_eq!(work_pages(WORK_BASE + 0x1_0000_0000, false), Err(Error::ENOSPC));
    assert_eq!(work_pages(WORK_BASE + 0xffff_c000, true), Err(Error::ENOSPC));
}

fn manager(t: &Tvb) -> Observed {
    Observed {
        root: t.root,
        mirror: t.blocks,
        counts: (t.blocks, t.blocks),
        block_list: t.addresses.buffer_manager_block_list,
        block_control: t.addresses.buffer_manager_block_control,
        block_size: 0x20000,
        capacity: 6579,
    }
}

#[test]
fn buffers_grow_by_what_there_is() {
    let start = 0x10_8000_0000;
    assert_eq!(growth_address(start, 11), Some(start));
    assert_eq!(growth_address(start, 13), Some(start + 0x50000));
    assert_eq!((growth_address(start, 10), growth_address(u64::MAX, 12)), (None, None));
    let (_, mut mem) = attached(64);
    let mut client = AddressSpace::new(&mut mem).unwrap();
    let mut f = frames(40);
    let mut pool = Tvb::new(0x8000, WORK_BASE, 9);
    // Twenty-two blocks are wanted, and there is memory for five: half of eleven.
    let seen = manager(&pool);
    let writes = pool.extend(&mut client, &mut mem, &mut f, start, seen, 331).unwrap().unwrap();
    assert_eq!((pool.blocks, f.len(), writes.len()), (16, 0, 2));
    assert_eq!((writes[0].va, writes[0].bytes.len()), (WORK_BASE + 0x14000 + 88, 40));
    assert_eq!(writes[0].bytes[8..16], ((0x8000_0000u64 + 0x28000) / 0x8000).to_le_bytes());
    assert_eq!((writes[1].va, writes[1].bytes.clone()), (WORK_BASE + 0x8000, vec![16, 0, 0, 0, 16, 0, 0, 0]));
    assert_eq!(client.low.translate(&mut mem, start), Ok(Some(0x90_0000_0000 + 39 * 0x4000)));
    assert_eq!(client.low.translate(&mut mem, start + 0x20000), Ok(None));
    // One block is better than none.
    let next = growth_address(start, 16).unwrap();
    let seen = manager(&pool);
    let mut few: Vec<u64> = (0..9).map(|i| 0x98_0000_0000 + i * 0x4000).collect();
    assert!(pool.extend(&mut client, &mut mem, &mut few, next, seen, 331).unwrap().is_some());
    assert_eq!((pool.blocks, few.len()), (17, 1));
    let seen = manager(&pool);
    assert!(matches!(pool.extend(&mut client, &mut mem, &mut few, next + 0x28000, seen, 331), Ok(None)));
    assert!(matches!(pool.extend(&mut client, &mut mem, &mut few, next + 0x28000, seen, 17), Ok(None)));
    assert_eq!(pool.extend(&mut client, &mut mem, &mut few, start, seen, 331).err(), Some(Error::EEXIST));
    assert_eq!(pool.extend(&mut client, &mut mem, &mut few, start, Observed { mirror: 18, ..seen }, 331).err(), Some(Error::EIO));
    mem.free.clear();
    let mut more: Vec<u64> = (0..8).map(|i| 0x9c_0000_0000 + i * 0x4000).collect();
    assert_eq!(pool.extend(&mut client, &mut mem, &mut more, 0x20_0000_0000, seen, 18).err(), Some(Error::ENOMEM));
    assert_eq!(pool.blocks, 17);
}

#[test]
fn buffers_grow_threefold() {
    let start = 0x10_8000_0000;
    let (_, mut mem) = attached(64);
    let mut client = AddressSpace::new(&mut mem).unwrap();
    let mut f = frames(180);
    let mut pool = Tvb::new(0x8000, WORK_BASE, 9);
    let seen = manager(&pool);
    let writes = pool.extend(&mut client, &mut mem, &mut f, start, seen, 331).unwrap().unwrap();
    assert_eq!((pool.blocks, f.len(), client.pages.len()), (33, 4, 176));
    assert_eq!(writes[0].bytes.len(), 22 * 8);
    assert_eq!((writes[1].va, writes[1].bytes.clone()), (WORK_BASE + 0x8000, vec![33, 0, 0, 0, 33, 0, 0, 0]));
    // Each block has eight pages, and two that stay free.
    let block = start + 15 * 0x28000;
    assert_eq!(client.low.translate(&mut mem, block), Ok(Some(0x90_0000_0000 + 59 * 0x4000)));
    assert_eq!(client.low.translate(&mut mem, block + 0x1c000), Ok(Some(0x90_0000_0000 + 52 * 0x4000)));
    assert_eq!(client.low.translate(&mut mem, block + 0x20000), Ok(None));
    assert_eq!(client.low.translate(&mut mem, start + 22 * 0x28000), Ok(None));
    // The limit caps what is wanted.
    let mut more = frames(8);
    let seen = manager(&pool);
    let next = growth_address(start, 33).unwrap();
    assert!(pool.extend(&mut client, &mut mem, &mut more, next, seen, 34).unwrap().is_some());
    assert_eq!((pool.blocks, more.len()), (34, 0));
    let seen = manager(&pool);
    assert_eq!(pool.extend(&mut client, &mut mem, &mut more, next + 8, seen, 331).err(), Some(Error::EINVAL));
}

#[test]
fn buffers_are_opened_once() {
    let (mut s, mut mem) = attached(64);
    let mut client = AddressSpace::new(&mut mem).unwrap();
    let mut f = frames(20);
    let mut session = Session::new();
    let support = Support { index: 2, growth_base: 0, submissions: 0 };
    let writes = session.open_pool(&mut client, &mut s, &mut mem, &mut f, &support).unwrap();
    assert_eq!((writes.len(), f.len(), session.works.next), (17, 4, WORK_BASE + 0x44000));
    assert_eq!((writes[3].va, writes[3].bytes.len(), writes[3].live), (WORK_BASE + 0xc000, 0x4000, false));
    assert_eq!((writes[16].va, writes[16].bytes[0..8].to_vec()), (0xffff_fc20_0012_8090, vec![0, 0x58, 2, 0, 44, 0, 0, 0]));
    let pool = &session.tvb_pools[0];
    assert_eq!((pool.root, pool.blocks, pool.addresses.buffer_manager_slot), (client.roots().low, 11, 9));
    // The client sees the page list of the firmware.
    let list = s.physical(&mut mem, WORK_BASE + 0x28000).unwrap();
    assert_eq!(client.low.translate(&mut mem, 0x10_0025_c000), Ok(Some(list)));
    let again = session.open_pool(&mut client, &mut s, &mut mem, &mut f, &support).unwrap();
    assert_eq!((again.len(), session.tvb_pools.len()), (0, 1));
    let mut other = AddressSpace::new(&mut mem).unwrap();
    assert_eq!(session.open_pool(&mut other, &mut s, &mut mem, &mut f, &support).err(), Some(Error::ENOMEM));
    session.works.next = u64::MAX - 0x3fff;
    assert_eq!(session.open_pool(&mut other, &mut s, &mut mem, &mut f, &support).err(), Some(Error::ENOSPC));
}

#[test]
fn ranges_of_a_list_are_backed_in_order() {
    let (_, mut mem) = attached(32);
    let mut s = AddressSpace::new(&mut mem).unwrap();
    let mut f = frames(5);
    let list = vec![(0x10_0000_0000, 0x8000), (0x10_0010_0000, 0x4000)];
    assert_eq!(s.alloc_ranges(&mut mem, &mut f, &list, prot_gpu_shared_rw()), Ok(()));
    assert_eq!(f, frames(2));
    assert_eq!(s.low.translate(&mut mem, 0x10_0000_0000), Ok(Some(0x90_0001_0000)));
    assert_eq!(s.low.translate(&mut mem, 0x10_0000_4000), Ok(Some(0x90_0000_c000)));
    assert_eq!(s.low.translate(&mut mem, 0x10_0010_0000), Ok(Some(0x90_0000_8000)));
    assert_eq!(s.low.translate(&mut mem, 0x10_0000_8000), Ok(None));
    assert_eq!(s.pages.len(), 3);
    // A range that meets one before it, and one that is not made of pages.
    let twice = vec![(0x10_0020_0000, 0x4000), (0x10_0020_0000, 0x4000)];
    assert_eq!(s.alloc_ranges(&mut mem, &mut f, &twice, prot_gpu_shared_rw()), Err(Error::EEXIST));
    assert_eq!((f.len(), s.pages.len()), (1, 4));
    let odd = vec![(0x10_0030_0000, 0x1000)];
    assert_eq!(s.alloc_ranges(&mut mem, &mut f, &odd, prot_gpu_shared_rw()), Err(Error::EINVAL));
    let high = vec![(0x400_0000_0000, 0x4000)];
    assert_eq!(s.alloc_ranges(&mut mem, &mut f, &high, prot_gpu_shared_rw()), Err(Error::EINVAL));
    let many = vec![(0x10_0030_0000, 0x8000)];
    assert_eq!(s.alloc_ranges(&mut mem, &mut f, &many, prot_gpu_shared_rw()), Err(Error::ENOMEM));
}

#[test]
fn the_device_is_opened() {
    let (mut firmware, mut mem) = attached(64);
    let mut device = AddressSpace::new(&mut mem).unwrap();
    let mut f = frames(DEVICE_FRAMES + 5);
    // Without the pages of the firmware there is nothing to show.
    let mut other = AddressSpace::new(&mut mem).unwrap();
    let mut spare = frames(DEVICE_FRAMES);
    assert_eq!(open_device(&mut other, &mut firmware, &mut mem, &mut spare), Err(Error::EINVAL));
    let windows = window_pages();
    for high in [0xffff_fc20_0012_8000, 0xffff_fc20_0013_0000, windows[0].1, windows[1].1] {
        firmware.allocate(&mut mem, &mut f, high, 0x4000, prot_fw_shared_rw()).unwrap();
    }
    let mut shown: Vec<u64> = Vec::new();
    for high in [0xffff_fc20_0012_8000, windows[1].1] {
        shown.push(firmware.physical(&mut mem, high).unwrap());
    }
    assert_eq!(open_device(&mut device, &mut firmware, &mut mem, &mut f), Ok(()));
    assert_eq!((f.len(), device.pages.len()), (1, DEVICE_FRAMES as usize));
    assert_eq!(device.low.translate(&mut mem, 0x70_0027_8000), Ok(Some(shown[0])));
    assert_eq!(device.low.translate(&mut mem, windows[1].0), Ok(Some(shown[1])));
    // The end of the last backed range has the first of the frames that were taken.
    assert_eq!(device.low.translate(&mut mem, 0x70_0027_0000), Ok(Some(0x90_0000_4000)));
    assert_eq!(device.low.translate(&mut mem, 0x70_0027_4000), Ok(None));
}

#[test]
fn clients_do_not_disturb_each_other() {
    let (_, mut mem) = attached(32);
    let mut a = AddressSpace::new(&mut mem).unwrap();
    let mut b = AddressSpace::new(&mut mem).unwrap();
    let mut f = frames(3);
    assert_eq!(a.alloc_low(&mut mem, &mut f, 0x10_0000_0000, 0x4000, prot_gpu_shared_rw()), Ok(()));
    assert_eq!(b.alloc_low(&mut mem, &mut f, 0x10_0000_0000, 0x8000, prot_gpu_shared_rw()), Ok(()));
    assert_eq!(a.low.translate(&mut mem, 0x10_0000_0000), Ok(Some(0x90_0000_8000)));
    assert_eq!(a.low.translate(&mut mem, 0x10_0000_4000), Ok(None));
    b.unmap_low(&mut mem, 0x10_0000_0000, 0x10_0000_8000);
    assert_eq!(b.low.translate(&mut mem, 0x10_0000_0000), Ok(None));
    assert_eq!(a.low.translate(&mut mem, 0x10_0000_0000), Ok(Some(0x90_0000_8000)));
}

#[test]
fn timestamps_are_shown_to_the_firmware() {
    let (mut s, mut mem) = attached(16);
    let base = 0xffff_fc28_0000_0000;
    let parts = vec![
        Segment { address: 0x88_0000_0000, length: 0x4000 },
        Segment { address: 0x89_0000_0000, length: 0xc000 },
    ];
    assert_eq!(s.bind_stamps(&mut mem, &parts, 0, base, 0x8000), Ok(()));
    assert_eq!(s.external, vec![(base, base + 0x4000), (base + 0x4000, base + 0x8000)]);
    assert_eq!(s.physical(&mut mem, base + 8), Ok(0x88_0000_0008));
    assert_eq!(s.physical(&mut mem, base + 0x4000), Ok(0x89_0000_0000));
    assert_eq!(s.physical(&mut mem, base + 0x8000), Err(Error::EINVAL));
    // An offset skips whole segments and a part of the next one.
    assert_eq!(s.bind_stamps(&mut mem, &parts, 0x8000, base + 0x10000, 0x4000), Ok(()));
    assert_eq!(s.physical(&mut mem, base + 0x10000), Ok(0x89_0000_4000));
    // A buffer that is too short leaves nothing behind.
    assert_eq!(s.bind_stamps(&mut mem, &parts, 0xc000, base + 0x20000, 0x8000), Err(Error::EIO));
    assert_eq!(s.physical(&mut mem, base + 0x20000), Err(Error::EINVAL));
    assert_eq!(s.external.len(), 3);
    // Parts that are not made of pages, and a place that is taken.
    let odd = vec![Segment { address: 0x88_0000_0800, length: 0x4000 }];
    assert_eq!(s.bind_stamps(&mut mem, &odd, 0, base + 0x20000, 0x4000), Err(Error::EINVAL));
    let short = vec![Segment { address: 0x88_0000_0000, length: 0x1000 }];
    assert_eq!(s.bind_stamps(&mut mem, &short, 0, base + 0x20000, 0x4000), Err(Error::EINVAL));
    assert_eq!(s.bind_stamps(&mut mem, &parts, 0, base + 0xc000, 0x8000), Err(Error::EEXIST));
    assert_eq!(s.physical(&mut mem, base + 0x10000), Err(Error::EINVAL));
    mem.free.clear();
    assert_eq!(s.bind_stamps(&mut mem, &parts, 0, base + 0x8_0000_0000, 0x4000), Err(Error::ENOMEM));
}
