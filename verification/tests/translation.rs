use asahi_m4::client::Vm;
use asahi_m4::error::Error;
use asahi_m4::mapping::{Mapping, Segment};
use asahi_m4::pgtable::UatPageTable;
use asahi_m4::prot::{prot_fw_priv_rw, prot_gpu_shared_ro, prot_gpu_shared_rw, Prot};
use asahi_m4::render;
use asahi_m4::space::AddressSpace;
use asahi_m4::space_alloc::Chunk;
use asahi_m4::tables::TableMemory;

fn memory(pages: u64) -> TableMemory {
    let mut mem = TableMemory::new();
    for i in 0..pages {
        mem.free.push(0x80_0000_0000 + i * 0x4000);
    }
    mem
}

fn frames(count: u64) -> Vec<u64> {
    (0..count).map(|i| 0x90_0000_0000 + i * 0x4000).collect()
}

#[test]
fn rights_are_encoded() {
    let p = prot_gpu_shared_rw();
    assert_eq!(p.as_pte(), 12 << 52 | 2 << 6 | 2 << 2 | 0x400);
    assert_eq!(Prot::from_pte(p.as_pte()), p);
    assert_eq!(Prot::from_bits(1, true, false), prot_fw_priv_rw());
    assert_eq!(Prot::from_bits(0, false, true).high_bits, 10);
    assert_eq!(Prot::from_bits(0, false, false).high_bits, 8);
    assert!(prot_fw_priv_rw().is_cached_noncoherent());
    assert!(!prot_fw_priv_rw().as_uncached().is_cached_noncoherent());
    assert!(!p.memattr(0).is_cached_noncoherent());
    assert_eq!(p.elf_flags(), 12 << 20 | 0x488 << 8);
    assert_eq!(prot_fw_priv_rw().elf_flags(), 12 << 20 | 0x440 << 8 | 6);
    let fw = Prot { memattr: 0, ap: 2, high_bits: 0 };
    assert_eq!(fw.elf_flags(), 0x480 << 8 | 5);
}

#[test]
fn roots_are_checked() {
    let mut mem = memory(1);
    assert_eq!(UatPageTable::new(&mut mem, 53).err(), Some(Error::EINVAL));
    assert_eq!(UatPageTable::new_with_ias(&mut mem, 42, 48).err(), Some(Error::EINVAL));
    let root = UatPageTable::new_with_ias(&mut mem, 42, 42).unwrap();
    assert_eq!((root.ttb(), root.va_range.clone()), (0x80_0000_0000, 0..1 << 42));
    assert_eq!(UatPageTable::new(&mut mem, 42).err(), Some(Error::ENOMEM));
    let range = 0xffff_fc00_0000_0000..0xffff_fc80_0000_0000;
    assert_eq!(UatPageTable::new_with_ttb(&mem, 0x1000, range.clone(), 42).err(), Some(Error::EINVAL));
    assert_eq!(UatPageTable::new_with_ttb(&mem, 0x4000, range.clone(), 42).err(), Some(Error::EIO));
    assert_eq!(UatPageTable::new_with_ttb(&mem, 0x4000, 0x4000..0x4000, 42).err(), Some(Error::EINVAL));
    let borrowed = UatPageTable::new_with_ttb_and_ias(&mem, root.ttb(), 0..0x8000, 42, 42).unwrap();
    assert_eq!((borrowed.pte_bits(), root.pte_bits()), (3, 0x803));
}

#[test]
fn mappings_translate_and_go_away() {
    let mut mem = memory(5);
    let mut t = UatPageTable::new_with_ias(&mut mem, 42, 42).unwrap();
    let start = 0x10_0000_4000;
    t.map_pages(&mut mem, start..start + 0x8000, 0x88_0000_0000, prot_gpu_shared_rw(), false).unwrap();
    assert_eq!(t.owned_tables.len(), 2);
    assert_eq!(t.translate(&mut mem, start + 0x123), Ok(Some(0x88_0000_0123)));
    assert_eq!(t.translate(&mut mem, start + 0x4000), Ok(Some(0x88_0000_4000)));
    assert_eq!(t.translate(&mut mem, start + 0x8000), Ok(None));
    assert_eq!(t.translate(&mut mem, 1 << 42), Err(Error::EINVAL));
    assert_eq!(t.sync()[0], t.ttb());
    let leaf = t.leaf(&mut mem, start).unwrap();
    assert_eq!(leaf, 0x88_0000_0000 | prot_gpu_shared_rw().as_pte() | 0x803);
    t.reprot_pages(&mut mem, start..start + 0x4000, prot_gpu_shared_ro()).unwrap();
    assert_eq!(t.leaf(&mut mem, start), Ok(0x88_0000_0000 | prot_gpu_shared_ro().as_pte() | 0x803));
    let dump = t.dump_pages(&mut mem, start - 0x4000..start + 0x10000).unwrap();
    assert_eq!(dump.len(), 2);
    assert_eq!((dump[1].iova, dump[1].frame), (start + 0x4000, Some(0x88_0000_4000)));
    t.unmap_pages(&mut mem, start..start + 0x4000).unwrap();
    assert_eq!(t.translate(&mut mem, start), Ok(None));
    assert_eq!(t.leaf(&mut mem, start), Err(Error::EINVAL));
    t.restore_leaf(&mut mem, start, leaf).unwrap();
    assert_eq!(t.translate(&mut mem, start), Ok(Some(0x88_0000_0000)));
    assert_eq!(t.restore_leaf(&mut mem, start + 1, leaf), Err(Error::EINVAL));
    assert_eq!(t.restore_leaf(&mut mem, start, 0), Err(Error::EINVAL));
    let free = mem.free.len();
    t.release(&mut mem);
    assert_eq!(mem.free.len(), free + 3);
}

#[test]
fn mapping_arguments_are_checked() {
    let mut mem = memory(2);
    let mut t = UatPageTable::new_with_ias(&mut mem, 42, 42).unwrap();
    let rw = prot_gpu_shared_rw();
    assert_eq!(t.map_pages(&mut mem, 0x4000..0x8000, 0x123, rw, false), Err(Error::EINVAL));
    assert_eq!(t.map_pages(&mut mem, 0x4001..0x8000, 0x4000, rw, false), Err(Error::EINVAL));
    assert_eq!(t.alloc_pages(&mut mem, 0x4000..0x8000), Err(Error::ENOMEM));
    assert_eq!(t.dump_pages(&mut mem, 0x4000..0x8001).err(), Some(Error::EINVAL));
    assert_eq!(t.dump_pages(&mut mem, 0x4000..0x8000).unwrap().len(), 0);
    assert_eq!(t.translate(&mut mem, 0x4000), Ok(None));
}

#[test]
fn repeated_pages_share_a_frame() {
    let mut mem = memory(5);
    let mut t = UatPageTable::new_with_ias(&mut mem, 42, 42).unwrap();
    t.map_pages(&mut mem, 0x4000..0xc000, 0x88_0000_0000, prot_gpu_shared_rw(), true).unwrap();
    assert_eq!(t.translate(&mut mem, 0x4000), Ok(Some(0x88_0000_0000)));
    assert_eq!(t.translate(&mut mem, 0x8000), Ok(Some(0x88_0000_0000)));
}

#[test]
fn borrowed_children_outlive_their_user() {
    let mut mem = memory(8);
    let mut owner = UatPageTable::new_with_ias(&mut mem, 42, 42).unwrap();
    owner.map_pages(&mut mem, 0x4000..0x8000, 0x88_0000_0000, prot_gpu_shared_rw(), false).unwrap();
    let mut user = UatPageTable::new_with_ttb_and_ias(&mem, owner.ttb(), 0..1 << 42, 42, 42).unwrap();
    let far = 0x100_0000_0000;
    user.map_pages(&mut mem, 0x8000..0xc000, 0x88_0000_4000, prot_gpu_shared_rw(), false).unwrap();
    user.map_pages(&mut mem, far..far + 0x4000, 0x88_0000_8000, prot_gpu_shared_rw(), false).unwrap();
    assert_eq!(user.owned_tables.len(), 2);
    user.release(&mut mem);
    assert_eq!(owner.translate(&mut mem, 0x4000), Ok(Some(0x88_0000_0000)));
    assert_eq!(owner.translate(&mut mem, far), Ok(None));
}

#[test]
fn client_roots_are_independent() {
    let mut mem = memory(1);
    assert_eq!(AddressSpace::new(&mut mem).err(), Some(Error::ENOMEM));
    let mut mem = memory(20);
    let mut space = AddressSpace::new(&mut mem).unwrap();
    assert_ne!(space.roots().low, space.roots().high);
    assert_eq!(space.check_geometry(&mut mem, 0x90_0000_0000, 0x90_0000_4000), Ok(()));
    assert_eq!(space.check_borrowed_root(&mut mem, 0x90_0000_0000, 0x90_0000_4000), Ok(()));
}

#[test]
fn pages_are_allocated_and_written() {
    let mut mem = memory(20);
    let mut f = frames(3);
    let mut space = AddressSpace::new(&mut mem).unwrap();
    let rw = prot_gpu_shared_rw();
    assert_eq!(space.alloc_low(&mut mem, &mut f, 0x10000, 0x1000, rw), Err(Error::EINVAL));
    assert_eq!(space.alloc_low(&mut mem, &mut f, 0x10000, 0, rw), Err(Error::EINVAL));
    space.alloc_low(&mut mem, &mut f, 0x10000, 0x8000, rw).unwrap();
    assert_eq!(f, vec![0x90_0000_0000]);
    assert_eq!(space.low.translate(&mut mem, 0x14008), Ok(Some(0x90_0000_4008)));
    assert_eq!(space.alloc_low(&mut mem, &mut f, 0x14000, 0x4000, rw), Err(Error::EEXIST));
    let (chunks, done) = space.write_low(0x13ff0, 0x20);
    assert_eq!(done, Ok(()));
    assert_eq!(
        chunks,
        vec![
            Chunk { frame: 0x90_0000_8000, within: 0x3ff0, from: 0, size: 0x10 },
            Chunk { frame: 0x90_0000_4000, within: 0, from: 0x10, size: 0x10 },
        ]
    );
    let (chunks, done) = space.write_low(0x17ff0, 0x20);
    assert_eq!((chunks.len(), done), (1, Err(Error::EINVAL)));
    assert_eq!(space.alloc_low(&mut mem, &mut f, 0x20000, 0x8000, rw), Err(Error::ENOMEM));
}

#[test]
fn tiler_blocks_are_eight_pages() {
    let mut mem = memory(20);
    let mut f = frames(20);
    let mut space = AddressSpace::new(&mut mem).unwrap();
    let base = 0x10_1000_0000;
    assert_eq!(space.alloc_tvb_blocks(&mut mem, &mut f, base, 0), Err(Error::EINVAL));
    assert_eq!(space.alloc_tvb_blocks(&mut mem, &mut f, base, 11), Err(Error::EINVAL));
    assert_eq!(space.alloc_tvb_blocks(&mut mem, &mut f, base + 0x4000, 1), Err(Error::EINVAL));
    assert_eq!(space.alloc_tvb_blocks(&mut mem, &mut f, base, 3), Ok(false));
    assert_eq!(f.len(), 20);
    assert_eq!(space.alloc_tvb_blocks(&mut mem, &mut f, base, 2), Ok(true));
    assert_eq!(f.len(), 4);
    assert_eq!(space.low.translate(&mut mem, base + 0x1c000), Ok(Some(0x90_0000_0000 + 12 * 0x4000)));
    assert_eq!(space.low.translate(&mut mem, base + 0x20000), Ok(None));
    assert_eq!(space.low.translate(&mut mem, base + 0x28000), Ok(Some(0x90_0000_0000 + 11 * 0x4000)));
}

#[test]
fn scratch_is_handed_out_in_order() {
    let mut mem = memory(60);
    let mut f = frames(60);
    let mut space = AddressSpace::new(&mut mem).unwrap();
    let mut p = asahi_m4::compute::Parameters {
        cdm: 0,
        cdm_end: 0,
        resource: 0,
        scratch: 0,
        marker: 0,
        sampler: 0,
        sampler_count: 0,
    };
    assert_eq!(space.prepare_compute(&mut mem, &mut f, &mut p), Err(Error::ENOMEM));
    space.init_compute_private(0x20_0000_0000..0x20_0002_8000);
    assert_eq!(space.prepare_compute(&mut mem, &mut f, &mut p), Ok(()));
    assert_eq!((p.scratch, p.marker), (0x20_0000_0000, 0x20_0002_0000));
    assert_eq!(space.prepare_compute(&mut mem, &mut f, &mut p), Err(Error::ENOMEM));
    let mut r = render::Parameters::default();
    assert_eq!(space.prepare_render(&mut mem, &mut f, &mut r), Err(Error::EINVAL));
}

fn client() -> Vm {
    Vm {
        id: 1,
        visible: true,
        kernel_start: 0x10_1000_0000,
        kernel_end: 0x10_3000_0000,
        mappings: vec![],
        render_ready: false,
        compute_ready: false,
        render_broken: false,
    }
}

#[test]
fn bindings_show_in_both_views() {
    let mut mem = memory(40);
    let mut render = AddressSpace::new(&mut mem).unwrap();
    let mut compute = AddressSpace::new(&mut mem).unwrap();
    let mut vm = client();
    let new = Mapping { start: 0x10000, end: 0x1c000, permissions: 6, offset: 0x4000, single: false, object: 7 };
    let segments = vec![
        Segment { address: 0x88_0000_0000, length: 0x8000 },
        Segment { address: 0x89_0000_0000, length: 0x8000 },
    ];
    let access = prot_gpu_shared_rw();
    vm.map(&mut render, &mut compute, &mut mem, new, &segments, access).unwrap();
    for space in [&mut render, &mut compute] {
        assert_eq!(space.low.translate(&mut mem, 0x10000), Ok(Some(0x88_0000_4000)));
        assert_eq!(space.low.translate(&mut mem, 0x14000), Ok(Some(0x89_0000_0000)));
        assert_eq!(space.low.translate(&mut mem, 0x18010), Ok(Some(0x89_0000_4010)));
    }
    let again = vm.map(&mut render, &mut compute, &mut mem, new, &segments, access);
    assert_eq!(again, Err(Error::EEXIST));
    let long = Mapping { start: 0x40000, end: 0x60000, ..new };
    let refused = vm.map(&mut render, &mut compute, &mut mem, long, &segments, access);
    assert_eq!(refused, Err(Error::EINVAL));
    assert_eq!(vm.unmap(&mut render, &mut compute, &mut mem, 0x14000, 0x18000), vec![7]);
    assert_eq!(vm.mappings.len(), 2);
    for space in [&mut render, &mut compute] {
        assert_eq!(space.low.translate(&mut mem, 0x10000), Ok(Some(0x88_0000_4000)));
        assert_eq!(space.low.translate(&mut mem, 0x14000), Ok(None));
        assert_eq!(space.low.translate(&mut mem, 0x18000), Ok(Some(0x89_0000_4000)));
    }
}

#[test]
fn failed_bindings_are_taken_back() {
    let mut mem = memory(6);
    let mut render = AddressSpace::new(&mut mem).unwrap();
    let mut compute = AddressSpace::new(&mut mem).unwrap();
    let mut vm = client();
    let new = Mapping { start: 0x10000, end: 0x14000, permissions: 6, offset: 0, single: false, object: 7 };
    let segments = vec![Segment { address: 0x88_0000_0000, length: 0x8000 }];
    let out = vm.map(&mut render, &mut compute, &mut mem, new, &segments, prot_gpu_shared_rw());
    assert_eq!(out, Err(Error::ENOMEM));
    assert_eq!(vm.mappings.len(), 0);
    assert_eq!(render.low.translate(&mut mem, 0x10000), Ok(None));
    assert_eq!(compute.low.translate(&mut mem, 0x10000), Ok(None));
}

#[test]
fn segments_beyond_the_output_addresses_do_not_read_back() {
    let mut mem = memory(40);
    let mut render = AddressSpace::new(&mut mem).unwrap();
    let mut compute = AddressSpace::new(&mut mem).unwrap();
    let mut vm = client();
    for single in [false, true] {
        let new = Mapping { start: 0x10000, end: 0x14000, permissions: 6, offset: 0, single, object: 7 };
        let high = vec![Segment { address: 0xffff_ffff_ffff_0000, length: 0x4000 }];
        let out = vm.map(&mut render, &mut compute, &mut mem, new, &high, prot_gpu_shared_rw());
        assert_eq!(out, Err(Error::EIO));
        assert_eq!(vm.mappings.len(), 0);
        assert_eq!(render.low.translate(&mut mem, 0x10000), Ok(None));
    }
}
