use asahi_m4::error::Error;
use asahi_m4::mapping::{cover, extents, meets, split, Extent, Mapping, Segment};
use asahi_m4::params::{
    compute_parameters, load_bind, pipeline, render_parameters, ComputeCommand, Helper, RenderCommand,
    RenderFlags, TileProgram, ZlsBuffer,
};

fn mapping(start: u64, end: u64, permissions: u32) -> Mapping {
    Mapping { start, end, permissions, offset: 0, single: false, object: start }
}

#[test]
fn covers_join_neighbouring_mappings() {
    let m = vec![mapping(0x4000, 0x8000, 2), mapping(0x8000, 0xc000, 6)];
    assert_eq!(cover(&m, 0x4000, 0x8000, 2), Ok(()));
    assert_eq!(cover(&m, 0x4000, 0x8000, 6), Err(Error::EINVAL));
    assert_eq!(cover(&m, 0x8000, 0x4000, 6), Ok(()));
    assert_eq!(cover(&m, 0x4000, 0x8001, 2), Err(Error::EINVAL));
    assert_eq!(cover(&m, 0x3fff, 2, 2), Err(Error::EINVAL));
    assert_eq!(cover(&m, 0x4000, 0, 2), Err(Error::EINVAL));
    assert_eq!(cover(&m, u64::MAX, 2, 2), Err(Error::EINVAL));
    assert!(meets(&m, 0x7000, 0x9000));
    assert!(!meets(&m, 0xc000, 0x10000));
}

#[test]
fn extents_follow_the_segments() {
    let s = vec![
        Segment { address: 0x10_0000, length: 0x8000 },
        Segment { address: 0x20_0000, length: 0xc000 },
    ];
    assert_eq!(
        extents(&s, 0x4000, 0x1_0000, 0x1_c000, false),
        Ok(vec![
            Extent { start: 0x1_0000, end: 0x1_4000, physical: 0x10_4000 },
            Extent { start: 0x1_4000, end: 0x1_c000, physical: 0x20_0000 },
        ])
    );
    assert_eq!(
        extents(&s, 0x8000, 0x1_0000, 0x2_0000, true),
        Ok(vec![Extent { start: 0x1_0000, end: 0x2_0000, physical: 0x20_0000 }])
    );
    assert_eq!(extents(&s, 0, 0x1_0000, 0x2_8000, false), Err(Error::EINVAL));
    assert_eq!(extents(&s, 0x1000, 0x1_0000, 0x1_4000, false), Err(Error::EINVAL));
    let odd = vec![Segment { address: 0x10_0800, length: 0x8000 }];
    assert_eq!(extents(&odd, 0, 0x1_0000, 0x1_4000, false), Err(Error::EINVAL));
}

#[test]
fn unbinding_splits_mappings() {
    let m = vec![
        Mapping { start: 0x1_0000, end: 0x2_0000, permissions: 6, offset: 0x4000, single: false, object: 1 },
        Mapping { start: 0x3_0000, end: 0x4_0000, permissions: 2, offset: 0x4000, single: true, object: 2 },
        Mapping { start: 0x5_0000, end: 0x6_0000, permissions: 2, offset: 0, single: false, object: 3 },
    ];
    let (left, lost) = split(&m, 0x1_4000, 0x3_8000);
    assert_eq!(lost, vec![1, 2]);
    assert_eq!(left.len(), 3);
    assert_eq!((left[0].start, left[0].end, left[0].offset), (0x1_0000, 0x1_4000, 0x4000));
    assert_eq!((left[1].start, left[1].end, left[1].offset), (0x3_8000, 0x4_0000, 0x4000));
    assert_eq!(left[2], m[2]);
    let (left, lost) = split(&m, 0x1_4000, 0x1_8000);
    assert_eq!(lost, vec![1]);
    assert_eq!((left[1].start, left[1].end, left[1].offset), (0x1_8000, 0x2_0000, 0xc000));
    assert_eq!(cover(&left, 0x1_0000, 0x4000, 2), Ok(()));
    assert_eq!(cover(&left, 0x1_4000, 0x4000, 2), Err(Error::EINVAL));
}

const KERNEL: u64 = 0x10_1000_0000;
const KERNEL_END: u64 = 0x10_3000_0000;
const FLAGS: RenderFlags = RenderFlags { process_empty_tiles: 1, dbias_is_int: 0x10 };

fn none() -> Helper {
    Helper { binary: 0, cfg: 0, data: 0 }
}

fn memory() -> Vec<Mapping> {
    vec![mapping(0x10_0001_0000, 0x10_0010_0000, 6), mapping(0x100_0000_0000, 0x100_0001_0000, 2)]
}

fn compute() -> ComputeCommand {
    ComputeCommand {
        flags: 0,
        helper: none(),
        cdm_ctrl_stream_base: 0x10_0001_0000,
        cdm_ctrl_stream_end: 0x10_0001_0100,
        sampler_heap: 0x10_0002_0000,
        sampler_count: 2,
    }
}

#[test]
fn compute_commands_are_checked() {
    let p = compute_parameters(&compute(), &memory()).unwrap();
    assert_eq!((p.cdm, p.cdm_end, p.sampler, p.sampler_count), (0x10_0001_0000, 0x10_0001_0100, 0x10_0002_0000, 2));
    assert_eq!((p.scratch, p.marker, p.resource), (0x70_030e_0000, 0x10_00c6_0000, 0));
    assert!(p.valid());
    let check = |c: ComputeCommand| compute_parameters(&c, &memory()).err();
    assert_eq!(check(ComputeCommand { flags: 1, ..compute() }), Some(Error::ENOTSUPP));
    assert_eq!(check(ComputeCommand { helper: Helper { binary: 1, ..none() }, ..compute() }), Some(Error::ENOTSUPP));
    for bad in [
        ComputeCommand { cdm_ctrl_stream_end: 0x10_0000_0000, ..compute() },
        ComputeCommand { cdm_ctrl_stream_end: 0x10_0001_0002, ..compute() },
        ComputeCommand { cdm_ctrl_stream_end: 0x10_0001_0000, ..compute() },
        ComputeCommand { cdm_ctrl_stream_base: 0x10_0000_0000, ..compute() },
        ComputeCommand { sampler_heap: 0x10_0002_0004, ..compute() },
        ComputeCommand { sampler_count: 1025, ..compute() },
        ComputeCommand { sampler_count: 0, ..compute() },
        ComputeCommand { sampler_heap: 0x10_000f_fff8, ..compute() },
    ] {
        assert_eq!(check(bad), Some(Error::EINVAL));
    }
}

fn render() -> RenderCommand {
    let zls = ZlsBuffer { base: 0, comp_base: 0, stride: 0, comp_stride: 0 };
    let program = TileProgram { usc: 0x100, rsrc_spec: 0x55 };
    RenderCommand {
        flags: 0,
        vertex_helper: none(),
        fragment_helper: none(),
        vdm_ctrl_stream_base: 0x10_0001_0000,
        isp_scissor_base: 0x10_0002_0000,
        isp_dbias_base: 0,
        isp_oclqry_base: 0,
        depth: zls,
        stencil: zls,
        zls_ctrl: 9,
        ppp_multisamplectl: 0x88,
        sampler_heap: 0,
        ppp_ctrl: 0x202,
        width_px: 64,
        height_px: 48,
        layers: 1,
        sampler_count: 0,
        utile_width_px: 32,
        utile_height_px: 16,
        samples: 4,
        sample_size: 8,
        isp_merge_upper_x: 3,
        isp_merge_upper_y: 4,
        isp_zls_pixels: 5,
        isp_bgobjdepth: 6,
        isp_bgobjvals: 7,
        bg: program,
        eot: program,
        partial_bg: program,
        partial_eot: program,
    }
}

#[test]
fn render_commands_become_parameters() {
    let p = render_parameters(&render(), &FLAGS, &memory(), KERNEL, KERNEL_END).unwrap();
    assert!(p.valid());
    assert_eq!(p.tib_blocks, 8);
    assert_eq!(p.utile_config, 2 << 12 | 1 << 14 | 2);
    assert_eq!(p.tile_config, 0x280);
    assert_eq!(p.aux_fb_flags, 0xc000);
    assert_eq!((p.load_pipeline, p.load_pipeline_bind), (0x100_0000_0100, 0xffff_8000_0000_0055));
    assert_eq!((p.store_pipeline, p.store_pipeline_bind), (0x100_0000_0100, 0x55));
    assert_eq!((p.tiling_gate, p.fragment_gate, p.cycle), (0xa9_0040_0020, 0xd5_0040_0020, 0x24_0030));
    assert_eq!((p.layermeta, p.heapmeta), (KERNEL + 0x35d0000, KERNEL + 0x35d0000));
    assert!(p.request_tvb_growth && !p.process_empty_tiles);
    let layered = RenderCommand { layers: 2, flags: 0x11, ..render() };
    let p = render_parameters(&layered, &FLAGS, &memory(), KERNEL, KERNEL_END).unwrap();
    assert_eq!((p.layermeta, p.heapmeta), (KERNEL + 0x35d0000, KERNEL + 0x35d0100));
    assert_eq!((p.tile_config, p.aux_fb_flags), (0x1_0281, 0xc010));
    assert!(p.process_empty_tiles);
}

#[test]
fn render_commands_are_checked() {
    let check = |c: RenderCommand| render_parameters(&c, &FLAGS, &memory(), KERNEL, KERNEL_END).err();
    assert_eq!(check(render()), None);
    assert_eq!(check(RenderCommand { flags: 2, ..render() }), Some(Error::ENOTSUPP));
    assert_eq!(check(RenderCommand { vertex_helper: Helper { data: 1, ..none() }, ..render() }), Some(Error::ENOTSUPP));
    assert_eq!(check(RenderCommand { fragment_helper: Helper { cfg: 1, ..none() }, ..render() }), Some(Error::ENOTSUPP));
    let absent = TileProgram { usc: 0, rsrc_spec: 0 };
    let far = TileProgram { usc: 0x10000, rsrc_spec: 0 };
    for bad in [
        RenderCommand { vdm_ctrl_stream_base: 0, ..render() },
        RenderCommand { vdm_ctrl_stream_base: 0x10_0001_0002, ..render() },
        RenderCommand { vdm_ctrl_stream_base: 0x10_0000_0000, ..render() },
        RenderCommand { isp_scissor_base: 0, ..render() },
        RenderCommand { isp_dbias_base: 0x10_0002_0004, ..render() },
        RenderCommand { isp_oclqry_base: 0x100_0000_0000, ..render() },
        RenderCommand { width_px: 0, ..render() },
        RenderCommand { samples: 3, ..render() },
        RenderCommand { sample_size: 255, ..render() },
        RenderCommand { sampler_count: 1, ..render() },
        RenderCommand { sampler_heap: 0x10_0002_0000, sampler_count: 1025, ..render() },
        RenderCommand { eot: absent, ..render() },
        RenderCommand { partial_bg: absent, ..render() },
        RenderCommand { partial_eot: far, ..render() },
        RenderCommand { bg: TileProgram { usc: 0, rsrc_spec: 1 }, ..render() },
    ] {
        assert_eq!(check(bad), Some(Error::EINVAL));
    }
    assert_eq!(check(RenderCommand { bg: absent, partial_bg: absent, ..render() }), None);
    assert_eq!(render_parameters(&render(), &FLAGS, &memory(), KERNEL + 1, KERNEL_END).err(), Some(Error::EINVAL));
}

#[test]
fn depth_buffers_cover_all_layers() {
    let check = |depth: ZlsBuffer, layers: u16| {
        let c = RenderCommand { depth, layers, ..render() };
        render_parameters(&c, &FLAGS, &memory(), KERNEL, KERNEL_END).err()
    };
    let base = 0x10_0004_0000;
    let z = ZlsBuffer { base, comp_base: 0, stride: 0, comp_stride: 0 };
    assert_eq!(check(z, 1), None);
    assert_eq!(check(z, 2), Some(Error::EINVAL));
    assert_eq!(check(ZlsBuffer { stride: 1, ..z }, 2), None);
    assert_eq!(check(ZlsBuffer { stride: 0x4001, ..z }, 24), None);
    assert_eq!(check(ZlsBuffer { stride: 0x4001, ..z }, 25), Some(Error::EINVAL));
    assert_eq!(check(ZlsBuffer { stride: 2, ..z }, 1), Some(Error::EINVAL));
    assert_eq!(check(ZlsBuffer { comp_stride: 0x4000, ..z }, 1), Some(Error::EINVAL));
    assert_eq!(check(ZlsBuffer { comp_base: base, comp_stride: 0x4000, ..z }, 1), None);
    assert_eq!(check(ZlsBuffer { comp_base: base, comp_stride: 0x4001, ..z }, 1), Some(Error::EINVAL));
    assert_eq!(check(ZlsBuffer { base: 0, stride: 1, ..z }, 1), Some(Error::EINVAL));
}

#[test]
fn programs_have_addresses_and_bindings() {
    assert_eq!(pipeline(0), 0);
    assert_eq!(pipeline(0x1234), 0x100_0000_1234);
    assert_eq!(load_bind(TileProgram { usc: 0, rsrc_spec: 9 }), 0);
    assert_eq!(load_bind(TileProgram { usc: 8, rsrc_spec: 9 }), 0xffff_8000_0000_0009);
}
