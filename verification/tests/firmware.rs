use asahi_m4::error::Error;
use asahi_m4::fwspace::FirmwareSpace;
use asahi_m4::prot::{prot_fw_priv_rw, prot_fw_shared_rw};
use asahi_m4::space_alloc::Chunk;
use asahi_m4::tables::TableMemory;

const ROOT: u64 = 0x81_0000_0000;
const VA: u64 = 0xffff_fc22_0000_0000;

fn attached(tables: u64) -> (FirmwareSpace, TableMemory) {
    let mut mem = TableMemory::new();
    mem.add_table(ROOT);
    for i in 0..tables {
        mem.free.push(0x80_0000_0000 + i * 0x4000);
    }
    (FirmwareSpace::attach(&mem, ROOT).unwrap(), mem)
}

fn frames(count: u64) -> Vec<u64> {
    (0..count).map(|i| 0x90_0000_0000 + i * 0x4000).collect()
}

#[test]
fn firmware_roots_are_checked() {
    let mem = TableMemory::new();
    assert_eq!(FirmwareSpace::attach(&mem, 0x1000).err(), Some(Error::EINVAL));
    assert_eq!(FirmwareSpace::attach(&mem, ROOT).err(), Some(Error::EIO));
}

#[test]
fn regions_are_allocated() {
    let (mut s, mut mem) = attached(8);
    let mut f = frames(4);
    let rw = prot_fw_shared_rw();
    assert_eq!(s.allocate(&mut mem, &mut f, VA, 0, rw), Err(Error::EINVAL));
    assert_eq!(s.allocate(&mut mem, &mut f, VA + 1, 0x4000, rw), Err(Error::EINVAL));
    assert_eq!(s.allocate(&mut mem, &mut f, 0x4000, 0x4000, rw), Err(Error::EINVAL));
    assert_eq!(s.allocate(&mut mem, &mut f, VA, 0x14000, rw), Err(Error::ENOMEM));
    assert_eq!(f.len(), 4);
    assert_eq!(s.allocate(&mut mem, &mut f, VA, 0x8000, rw), Ok(()));
    assert_eq!(s.allocate(&mut mem, &mut f, VA + 0x4000, 0x4000, rw), Err(Error::EEXIST));
    assert_eq!(s.allocate(&mut mem, &mut f, VA - 0x4000, 0x4000, rw), Ok(()));
    assert_eq!((s.regions[0].va, s.regions[1].va, f.len()), (VA - 0x4000, VA, 1));
    assert_eq!(s.physical(&mut mem, VA + 0x4010), Ok(s.regions[1].pages[1] + 0x10));
    assert_eq!(s.physical(&mut mem, VA + 0x8000), Err(Error::EINVAL));
    assert_eq!(s.physical(&mut mem, 0x4000), Err(Error::EINVAL));
    assert_eq!(s.region(VA + 0x7fff, 1), Ok(1));
    assert_eq!(s.region(VA + 0x7fff, 2), Err(Error::EINVAL));
    assert_eq!(s.region(VA - 1, 2), Err(Error::EINVAL));
}

#[test]
fn writes_wait_for_synchronization() {
    let (mut s, mut mem) = attached(8);
    let mut f = frames(4);
    s.allocate(&mut mem, &mut f, VA, 0xc000, prot_fw_priv_rw()).unwrap();
    let pages = s.regions[0].pages.clone();
    s.sync();
    assert_eq!(
        s.write(VA + 0x3ff8, 16),
        Ok(vec![
            Chunk { frame: pages[0], within: 0x3ff8, from: 0, size: 8 },
            Chunk { frame: pages[1], within: 0, from: 8, size: 8 },
        ])
    );
    assert_eq!(s.write(VA + 0xbfff, 2), Err(Error::EINVAL));
    assert_eq!(s.init_page(VA + 0x8000), Ok(pages[2]));
    assert_eq!(s.init_page(VA + 8), Err(Error::EINVAL));
    assert_eq!(s.dirty_regions, vec![VA]);
    let live = s.write_live(VA + 0x7f00, 0x200).unwrap();
    assert_eq!(live.len(), 2);
    assert_eq!((live[0].frame, live[0].within, live[0].limit), (pages[1], 0x3f00, 0x4000));
    let mut out = s.sync();
    out.sort();
    assert_eq!(out, vec![pages[0]]);
    assert_eq!(s.sync(), vec![]);
    assert_eq!(s.write_live(VA - 4, 8).err(), Some(Error::EINVAL));
    assert_eq!(s.read_u32(VA + 0x4004), Ok((pages[1], 4)));
    assert_eq!(s.read_u32(VA + 2), Err(Error::EINVAL));
    assert_eq!(s.read_u64(VA + 0x3ffc), Ok([(pages[0], 0x3ffc), (pages[1], 0)]));
    assert_eq!(s.read_u64(VA + 0xbffc), Err(Error::EINVAL));
}

#[test]
fn external_pages_are_mapped_and_dropped() {
    let (mut s, mut mem) = attached(8);
    let rw = prot_fw_shared_rw();
    assert_eq!(s.map_external(&mut mem, VA, 0x3_0000_0000, 0x8000, rw), Ok(()));
    assert_eq!(s.map_external(&mut mem, VA + 0x4000, 0x3_0000_0000, 0x4000, rw), Err(Error::EEXIST));
    assert_eq!(s.map_external(&mut mem, VA + 0x8000, 0x3_0000_0010, 0x4000, rw), Err(Error::EINVAL));
    assert_eq!(s.physical(&mut mem, VA + 0x4123), Ok(0x3_0000_4123));
    assert_eq!(s.unmap_external(&mut mem, VA..VA + 0x8001), Err(Error::EINVAL));
    assert_eq!(s.unmap_external(&mut mem, VA..VA + 0x8000), Ok(()));
    assert_eq!(s.external, vec![]);
    assert_eq!(s.physical(&mut mem, VA), Err(Error::EINVAL));
    let mut f = frames(1);
    assert_eq!(s.allocate(&mut mem, &mut f, VA, 0x4000, rw), Ok(()));
}

#[test]
fn regions_give_their_frames_back() {
    let (mut s, mut mem) = attached(8);
    let mut f = frames(4);
    let rw = prot_fw_shared_rw();
    s.allocate(&mut mem, &mut f, VA, 0x8000, rw).unwrap();
    s.allocate(&mut mem, &mut f, VA + 0x10000, 0x4000, rw).unwrap();
    s.map_external(&mut mem, VA + 0x20000, 0x3_0000_0000, 0x4000, rw).unwrap();
    let pages = s.regions[0].pages.clone();
    assert_eq!(s.release_region(&mut mem, VA + 0x4000), Err(Error::EINVAL));
    assert_eq!(s.release_region(&mut mem, VA), Ok(pages));
    assert_eq!(s.physical(&mut mem, VA), Err(Error::EINVAL));
    let last = s.regions[0].pages.clone();
    assert_eq!(s.teardown(&mut mem), last);
    assert_eq!(s.physical(&mut mem, VA + 0x10000), Err(Error::EINVAL));
    assert_eq!(s.physical(&mut mem, VA + 0x20000), Err(Error::EINVAL));
}

#[test]
fn the_map_is_reserved_at_once() {
    let (mut s, mut mem) = attached(400);
    let mut f = frames(2000);
    assert_eq!(s.reserve_map(&mut mem, &mut f), Ok(()));
    assert_eq!(s.regions.len(), 59);
    assert_eq!(s.regions[2].pages.len(), 0x31);
    let (mut s, mut mem) = attached(400);
    let mut f = frames(3);
    assert_eq!(s.reserve_map(&mut mem, &mut f), Err(Error::ENOMEM));
    let (mut s, mut mem) = attached(400);
    let mut f = frames(2000);
    s.map_external(&mut mem, 0xffff_fc20_0003_0000, 0x3_0000_0000, 0x4000, prot_fw_shared_rw()).unwrap();
    assert_eq!(s.reserve_map(&mut mem, &mut f), Err(Error::EEXIST));
}
