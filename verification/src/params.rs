//! Parameters of the commands of a client.
use crate::client::USC_EXEC_BASE;
use crate::compute;
use crate::error::Error;
use crate::mapping;
use crate::mapping::{cover, Mapping};
use crate::render::Parameters;
use vstd::prelude::*;

verus! {

/// A helper program, which no command may have.
#[derive(Clone, Copy, Debug, PartialEq, Eq, Structural)]
pub struct Helper {
    pub binary: u32,
    pub cfg: u32,
    pub data: u64,
}

/// A depth or stencil buffer.
#[derive(Clone, Copy, Debug, PartialEq, Eq, Structural)]
pub struct ZlsBuffer {
    pub base: u64,
    pub comp_base: u64,
    pub stride: u32,
    pub comp_stride: u32,
}

/// A program that loads or stores tiles.
#[derive(Clone, Copy, Debug, PartialEq, Eq, Structural)]
pub struct TileProgram {
    pub usc: u32,
    pub rsrc_spec: u32,
}

/// What a compute command asks for.
#[derive(Clone, Copy, Debug, PartialEq, Eq, Structural)]
pub struct ComputeCommand {
    pub flags: u32,
    pub helper: Helper,
    pub cdm_ctrl_stream_base: u64,
    pub cdm_ctrl_stream_end: u64,
    pub sampler_heap: u64,
    pub sampler_count: u32,
}

/// What a render command asks for.
#[derive(Clone, Copy, Debug, PartialEq, Eq, Structural)]
pub struct RenderCommand {
    pub flags: u32,
    pub vertex_helper: Helper,
    pub fragment_helper: Helper,
    pub vdm_ctrl_stream_base: u64,
    pub isp_scissor_base: u64,
    pub isp_dbias_base: u64,
    pub isp_oclqry_base: u64,
    pub depth: ZlsBuffer,
    pub stencil: ZlsBuffer,
    pub zls_ctrl: u64,
    pub ppp_multisamplectl: u64,
    pub sampler_heap: u64,
    pub ppp_ctrl: u32,
    pub width_px: u16,
    pub height_px: u16,
    pub layers: u16,
    pub sampler_count: u16,
    pub utile_width_px: u8,
    pub utile_height_px: u8,
    pub samples: u8,
    pub sample_size: u8,
    pub isp_merge_upper_x: u32,
    pub isp_merge_upper_y: u32,
    pub isp_zls_pixels: u32,
    pub isp_bgobjdepth: u32,
    pub isp_bgobjvals: u32,
    pub bg: TileProgram,
    pub eot: TileProgram,
    pub partial_bg: TileProgram,
    pub partial_eot: TileProgram,
}

/// The flags of a render command that there are.
#[derive(Clone, Copy, Debug, PartialEq, Eq, Structural)]
pub struct RenderFlags {
    pub process_empty_tiles: u32,
    pub dbias_is_int: u32,
}

impl Helper {
    /// Whether there is no helper program.
    #[verifier::allow_in_spec]
    pub fn is_none(&self) -> bool
        returns
            self.binary == 0 && self.cfg == 0 && self.data == 0,
    {
        self.binary == 0 && self.cfg == 0 && self.data == 0
    }
}

/// Whether the streams and samplers of a compute command are in order.
pub open spec fn compute_streams_ok(c: ComputeCommand) -> bool {
    &&& c.cdm_ctrl_stream_base + 4 <= c.cdm_ctrl_stream_end
    &&& c.cdm_ctrl_stream_base % 4 == 0
    &&& c.cdm_ctrl_stream_end % 4 == 0
    &&& c.sampler_heap % 8 == 0
    &&& c.sampler_count <= 1024
    &&& (c.sampler_count == 0) == (c.sampler_heap == 0)
}

/// Whether the memory that a compute command names is mapped.
pub open spec fn compute_mapped(c: ComputeCommand, mappings: Seq<Mapping>) -> bool {
    &&& mapping::range_covered(
        mappings,
        c.cdm_ctrl_stream_base as int,
        c.cdm_ctrl_stream_end - c.cdm_ctrl_stream_base,
        2,
    )
    &&& c.sampler_count != 0 ==> mapping::range_covered(
        mappings,
        c.sampler_heap as int,
        c.sampler_count * 8,
        2,
    )
}

/// The parameters of a compute command that is in order.
pub open spec fn compute_parameters_of(c: ComputeCommand) -> compute::Parameters {
    compute::Parameters {
        cdm: c.cdm_ctrl_stream_base,
        cdm_end: c.cdm_ctrl_stream_end,
        sampler: c.sampler_heap,
        sampler_count: c.sampler_count,
        scratch: compute::SCRATCH,
        marker: compute::MARKER,
        resource: 0,
    }
}

/// The parameters of a compute command.
pub fn compute_parameters(c: &ComputeCommand, mappings: &Vec<Mapping>) -> (out: Result<
    compute::Parameters,
    Error,
>)
    ensures
        if c.flags != 0 || !c.helper.is_none() {
            out is Err && out->Err_0 == Error::ENOTSUPP
        } else if !compute_streams_ok(*c) || !compute_mapped(*c, mappings@) {
            out is Err && out->Err_0 == Error::EINVAL
        } else {
            out is Ok && out->Ok_0 == compute_parameters_of(*c)
        },
{
    if c.flags != 0 || !c.helper.is_none() {
        return Err(Error::ENOTSUPP);
    }
    let size: u64 = match c.cdm_ctrl_stream_end.checked_sub(c.cdm_ctrl_stream_base) {
        None => {
            return Err(Error::EINVAL);
        },
        Some(size) => size,
    };
    if c.cdm_ctrl_stream_base % 4 != 0 || c.cdm_ctrl_stream_end % 4 != 0 || size < 4 || c.sampler_heap
        % 8 != 0 || c.sampler_count > 1024 || (c.sampler_count == 0) != (c.sampler_heap == 0) {
        return Err(Error::EINVAL);
    }
    match cover(mappings, c.cdm_ctrl_stream_base, size, 2) {
        Err(e) => {
            return Err(e);
        },
        Ok(()) => {},
    }
    if c.sampler_count != 0 {
        match cover(mappings, c.sampler_heap, c.sampler_count as u64 * 8, 2) {
            Err(e) => {
                return Err(e);
            },
            Ok(()) => {},
        }
    }
    Ok(
        compute::Parameters {
            cdm: c.cdm_ctrl_stream_base,
            cdm_end: c.cdm_ctrl_stream_end,
            sampler: c.sampler_heap,
            sampler_count: c.sampler_count,
            scratch: compute::SCRATCH,
            marker: compute::MARKER,
            resource: 0,
        },
    )
}

/// Whether a render command asks for something that is not supported.
pub open spec fn unsupported(c: RenderCommand, flags: RenderFlags) -> bool {
    ||| c.flags & !(flags.process_empty_tiles | flags.dbias_is_int) != 0
    ||| !c.vertex_helper.is_none()
    ||| !c.fragment_helper.is_none()
}

/// The address of a program of the shader aperture.
#[verifier::allow_in_spec]
pub fn pipeline(usc: u32) -> u64
    returns
        (if usc == 0 {
            0
        } else {
            (USC_EXEC_BASE + usc) as u64
        }),
{
    if usc == 0 {
        0
    } else {
        USC_EXEC_BASE + usc as u64
    }
}

/// The binding word of a program that loads tiles.
#[verifier::allow_in_spec]
pub fn load_bind(program: TileProgram) -> u64
    returns
        (if program.usc == 0 {
            0
        } else {
            (0xffff_8000_0000_0000 + program.rsrc_spec) as u64
        }),
{
    if program.usc == 0 {
        0
    } else {
        0xffff_8000_0000_0000 + program.rsrc_spec as u64
    }
}

/// The number of tile buffer blocks of a render.
pub open spec fn tile_blocks(c: RenderCommand) -> int {
    (c.sample_size * c.utile_width_px * c.utile_height_px * c.samples + 2047) / 2048
}

/// The parameters of a render before its layers are laid out.
pub open spec fn flat_parameters(c: RenderCommand, flags: RenderFlags, start: u64) -> Parameters {
    Parameters {
        width: c.width_px as u64,
        height: c.height_px as u64,
        layers: c.layers as u64,
        utile_width: c.utile_width_px as u64,
        utile_height: c.utile_height_px as u64,
        samples: c.samples as u64,
        sample_size: c.sample_size as u64,
        tib_blocks: tile_blocks(c) as u64,
        encoder: c.vdm_ctrl_stream_base,
        utile_config: (c.utile_width_px as int / 16 * 0x1000 + c.utile_height_px as int / 16 * 0x4000
            + c.samples as int / 2) as u64,
        process_empty_tiles: c.flags & flags.process_empty_tiles != 0,
        tile_config: (0x280 + (if c.layers > 1 {
            1int
        } else {
            0
        }) + (if c.flags & flags.process_empty_tiles != 0 {
            0x10000int
        } else {
            0
        })) as u64,
        multisample_control: c.ppp_multisamplectl,
        ppp_control: c.ppp_ctrl as u64,
        merge_upper_x_bits: c.isp_merge_upper_x as u64,
        merge_upper_y_bits: c.isp_merge_upper_y as u64,
        aux_fb_flags: 0xc000u64 | ((c.flags & flags.dbias_is_int) as u64),
        aux_fb_page_count: 0x10_0000,
        scissor_array: c.isp_scissor_base,
        depth_bias_array: c.isp_dbias_base,
        occlusion_query_base: c.isp_oclqry_base,
        depth_buffer: c.depth.base,
        depth_aux_buffer: c.depth.comp_base,
        depth_stride: c.depth.stride as u64,
        depth_aux_stride: c.depth.comp_stride as u64,
        stencil_buffer: c.stencil.base,
        stencil_aux_buffer: c.stencil.comp_base,
        stencil_stride: c.stencil.stride as u64,
        stencil_aux_stride: c.stencil.comp_stride as u64,
        depth_flags: c.zls_ctrl,
        depth_dimensions: c.isp_zls_pixels as u64,
        depth_clear_value_bits: c.isp_bgobjdepth as u64,
        stencil_clear_value: c.isp_bgobjvals as u64,
        sampler_array: c.sampler_heap,
        sampler_count: c.sampler_count as u64,
        ..Parameters::zeroed().with_private(start)
    }
}

/// The parameters of a render.
pub open spec fn render_parameters_of(c: RenderCommand, flags: RenderFlags, start: u64) -> Parameters {
    let p = flat_parameters(c, flags, start);
    Parameters {
        load_pipeline: pipeline(c.bg.usc),
        load_pipeline_bind: load_bind(c.bg),
        partial_load_pipeline: pipeline(c.partial_bg.usc),
        partial_load_pipeline_bind: load_bind(c.partial_bg),
        store_pipeline: pipeline(c.eot.usc),
        store_pipeline_bind: c.eot.rsrc_spec as u64,
        partial_store_pipeline: pipeline(c.partial_eot.usc),
        partial_store_pipeline_bind: c.partial_eot.rsrc_spec as u64,
        request_tvb_growth: true,
        tiling_admission: 7,
        fragment_admission: 7,
        cycle: 0x24_0030,
        tiling_gate: 0xa9_0040_0020,
        fragment_gate: 0xd5_0040_0020,
        tiling_lifecycle: 0x0800_9f52_0900_a6bb,
        fragment_lifecycle: 0x0800_9f52_0900_a6ba,
        tiling_work_stamp: 0x120,
        fragment_work_stamp: 0x121,
        completion_control: 4,
        layermeta: p.heapmeta,
        heapmeta: (p.heapmeta + if c.layers > 1 {
            0x100int
        } else {
            0
        }) as u64,
        ..p
    }
}

/// Whether an optional array of a render is aligned and mapped.
pub open spec fn array_ok(mappings: Seq<Mapping>, address: u64, access: u32) -> bool {
    address != 0 ==> address % 8 == 0 && mapping::range_covered(mappings, address as int, 8, access)
}

/// Whether the layout of a depth or stencil buffer is in order.
pub open spec fn zls_layout_ok(z: ZlsBuffer, layers: u16) -> bool {
    &&& z.base == 0 ==> z.comp_base == 0 && z.stride == 0 && z.comp_stride == 0
    &&& z.comp_base == 0 ==> z.comp_stride == 0
    &&& layers > 1 && z.base != 0 ==> z.stride != 0
    &&& z.stride != 0 ==> z.stride % 0x4000 == 1
    &&& z.comp_stride % 0x4000 == 0
}

/// The distance of two layers of a depth or stencil buffer.
pub open spec fn zls_stride(z: ZlsBuffer) -> int {
    if z.stride == 0 {
        0
    } else {
        (z.stride as int / 0x4000 + 1) * 0x4000
    }
}

/// Whether the first byte of every layer of a depth or stencil buffer, and what lies between them, is
/// mapped.
pub open spec fn zls_ok(mappings: Seq<Mapping>, z: ZlsBuffer, layers: u16) -> bool {
    &&& zls_layout_ok(z, layers)
    &&& z.base != 0 ==> mapping::range_covered(
        mappings,
        z.base as int,
        zls_stride(z) * (layers - 1) + 1,
        6,
    )
    &&& z.comp_base != 0 ==> mapping::range_covered(
        mappings,
        z.comp_base as int,
        (z.comp_stride as int / 0x4000 + 1) * 0x80 * (layers - 1) + 1,
        6,
    )
}

/// Whether a program that loads or stores tiles is there and mapped, or may be missing.
pub open spec fn program_ok(mappings: Seq<Mapping>, program: TileProgram, optional: bool) -> bool {
    if program.usc == 0 {
        optional && program.rsrc_spec == 0
    } else {
        mapping::range_covered(
            mappings,
            USC_EXEC_BASE + (program.usc - program.usc as int % 8),
            4,
            2,
        )
    }
}

/// Whether a render command can be run.
pub open spec fn render_ok(
    c: RenderCommand,
    flags: RenderFlags,
    mappings: Seq<Mapping>,
    start: u64,
    end: u64,
) -> bool {
    let p = flat_parameters(c, flags, start);
    &&& Parameters::private_fits(start, end)
    &&& p.is_valid()
    &&& p.encoder != 0
    &&& p.encoder % 4 == 0
    &&& mapping::range_covered(mappings, p.encoder as int, 4, 2)
    &&& p.scissor_array != 0
    &&& array_ok(mappings, p.scissor_array, 2)
    &&& array_ok(mappings, p.depth_bias_array, 2)
    &&& array_ok(mappings, p.occlusion_query_base, 4)
    &&& zls_ok(mappings, c.depth, c.layers)
    &&& zls_ok(mappings, c.stencil, c.layers)
    &&& p.sampler_count <= 1024
    &&& p.tib_blocks <= 32
    &&& p.sampler_count != 0 ==> mapping::range_covered(
        mappings,
        p.sampler_array as int,
        p.sampler_count * 8,
        2,
    )
    &&& program_ok(mappings, c.bg, true)
    &&& program_ok(mappings, c.eot, false)
    &&& program_ok(mappings, c.partial_bg, c.bg.usc == 0)
    &&& program_ok(mappings, c.partial_eot, false)
}

/// Checks an optional array of a render.
fn check_array(mappings: &Vec<Mapping>, address: u64, access: u32) -> (out: bool)
    ensures
        out == array_ok(mappings@, address, access),
{
    if address == 0 {
        return true;
    }
    if address % 8 != 0 {
        return false;
    }
    cover(mappings, address, 8, access).is_ok()
}

/// Checks a depth or stencil buffer.
fn check_zls(mappings: &Vec<Mapping>, z: &ZlsBuffer, layers: u16) -> (out: bool)
    requires
        1 <= layers,
    ensures
        out == zls_ok(mappings@, *z, layers),
{
    if (z.base == 0 && (z.comp_base != 0 || z.stride != 0 || z.comp_stride != 0)) || (z.comp_base == 0
        && z.comp_stride != 0) || (layers > 1 && z.base != 0 && z.stride == 0) || (z.stride != 0
        && z.stride % 0x4000 != 1) || z.comp_stride % 0x4000 != 0 {
        return false;
    }
    if z.base != 0 {
        let stride: u64 = if z.stride == 0 {
            0
        } else {
            (z.stride as u64 / 0x4000 + 1) * 0x4000
        };
        assert(stride * (layers - 1) <= 0x1_0000_4000 * 0xffff) by (nonlinear_arith)
            requires
                stride <= 0x1_0000_4000,
                1 <= layers <= 0xffff,
        ;
        if cover(mappings, z.base, stride * (layers as u64 - 1) + 1, 6).is_err() {
            return false;
        }
    }
    if z.comp_base != 0 {
        let stride: u64 = (z.comp_stride as u64 / 0x4000 + 1) * 0x80;
        assert(stride * (layers - 1) <= 0x200_0080 * 0xffff) by (nonlinear_arith)
            requires
                stride <= 0x200_0080,
                1 <= layers <= 0xffff,
        ;
        if cover(mappings, z.comp_base, stride * (layers as u64 - 1) + 1, 6).is_err() {
            return false;
        }
    }
    true
}

/// Checks a program that loads or stores tiles.
fn check_program(mappings: &Vec<Mapping>, program: &TileProgram, optional: bool) -> (out: bool)
    ensures
        out == program_ok(mappings@, *program, optional),
{
    if program.usc == 0 {
        return optional && program.rsrc_spec == 0;
    }
    cover(mappings, USC_EXEC_BASE + (program.usc - program.usc % 8) as u64, 4, 2).is_ok()
}

/// The tile buffer blocks of a render.
fn blocks_of(c: &RenderCommand) -> (out: u64)
    ensures
        out == tile_blocks(*c),
{
    assert(c.sample_size * c.utile_width_px <= 255 * 255) by (nonlinear_arith)
        requires
            c.sample_size <= 255,
            c.utile_width_px <= 255,
    ;
    let row: u64 = c.sample_size as u64 * c.utile_width_px as u64;
    assert(row * c.utile_height_px <= 255 * 255 * 255) by (nonlinear_arith)
        requires
            row <= 255 * 255,
            c.utile_height_px <= 255,
    ;
    let tile: u64 = row * c.utile_height_px as u64;
    assert(tile * c.samples <= 255 * 255 * 255 * 255) by (nonlinear_arith)
        requires
            tile <= 255 * 255 * 255,
            c.samples <= 255,
    ;
    (tile * c.samples as u64 + 2047) / 2048
}

/// The parameters of a render command: its geometry, the memory that it names, and the programs that
/// load and store its tiles. All memory has to be mapped by the client with fitting rights.
#[verifier::rlimit(40)]
pub fn render_parameters(
    c: &RenderCommand,
    flags: &RenderFlags,
    mappings: &Vec<Mapping>,
    start: u64,
    end: u64,
) -> (out: Result<Parameters, Error>)
    ensures
        if unsupported(*c, *flags) {
            out is Err && out->Err_0 == Error::ENOTSUPP
        } else if !render_ok(*c, *flags, mappings@, start, end) {
            out is Err && out->Err_0 == Error::EINVAL
        } else {
            out is Ok && out->Ok_0 == render_parameters_of(*c, *flags, start)
        },
{
    if c.flags & !(flags.process_empty_tiles | flags.dbias_is_int) != 0 || !c.vertex_helper.is_none()
        || !c.fragment_helper.is_none() {
        return Err(Error::ENOTSUPP);
    }
    let mut p: Parameters = Parameters::default();
    if p.set_private(start, end).is_none() {
        return Err(Error::EINVAL);
    }
    let empty: bool = c.flags & flags.process_empty_tiles != 0;
    p.width = c.width_px as u64;
    p.height = c.height_px as u64;
    p.layers = c.layers as u64;
    p.utile_width = c.utile_width_px as u64;
    p.utile_height = c.utile_height_px as u64;
    p.samples = c.samples as u64;
    p.sample_size = c.sample_size as u64;
    p.tib_blocks = blocks_of(c);
    p.encoder = c.vdm_ctrl_stream_base;
    p.utile_config = p.utile_width / 16 * 0x1000 + p.utile_height / 16 * 0x4000 + p.samples / 2;
    p.process_empty_tiles = empty;
    p.tile_config = 0x280 + (if c.layers > 1 {
        1
    } else {
        0
    }) + (if empty {
        0x10000
    } else {
        0
    });
    p.multisample_control = c.ppp_multisamplectl;
    p.ppp_control = c.ppp_ctrl as u64;
    p.merge_upper_x_bits = c.isp_merge_upper_x as u64;
    p.merge_upper_y_bits = c.isp_merge_upper_y as u64;
    p.aux_fb_flags = 0xc000u64 | ((c.flags & flags.dbias_is_int) as u64);
    p.aux_fb_page_count = 0x10_0000;
    p.scissor_array = c.isp_scissor_base;
    p.depth_bias_array = c.isp_dbias_base;
    p.occlusion_query_base = c.isp_oclqry_base;
    p.depth_buffer = c.depth.base;
    p.depth_aux_buffer = c.depth.comp_base;
    p.depth_stride = c.depth.stride as u64;
    p.depth_aux_stride = c.depth.comp_stride as u64;
    p.stencil_buffer = c.stencil.base;
    p.stencil_aux_buffer = c.stencil.comp_base;
    p.stencil_stride = c.stencil.stride as u64;
    p.stencil_aux_stride = c.stencil.comp_stride as u64;
    p.depth_flags = c.zls_ctrl;
    p.depth_dimensions = c.isp_zls_pixels as u64;
    p.depth_clear_value_bits = c.isp_bgobjdepth as u64;
    p.stencil_clear_value = c.isp_bgobjvals as u64;
    p.sampler_array = c.sampler_heap;
    p.sampler_count = c.sampler_count as u64;
    assert(p == flat_parameters(*c, *flags, start));
    if !p.valid() || p.encoder == 0 || p.encoder % 4 != 0 || p.scissor_array == 0 || p.sampler_count
        > 1024 || p.tib_blocks > 32 {
        return Err(Error::EINVAL);
    }
    if cover(mappings, p.encoder, 4, 2).is_err() || !check_array(mappings, p.scissor_array, 2)
        || !check_array(mappings, p.depth_bias_array, 2) || !check_array(
        mappings,
        p.occlusion_query_base,
        4,
    ) || !check_zls(mappings, &c.depth, c.layers) || !check_zls(mappings, &c.stencil, c.layers) {
        return Err(Error::EINVAL);
    }
    if p.sampler_count != 0 && cover(mappings, p.sampler_array, p.sampler_count * 8, 2).is_err() {
        return Err(Error::EINVAL);
    }
    if !check_program(mappings, &c.bg, true) || !check_program(mappings, &c.eot, false)
        || !check_program(mappings, &c.partial_bg, c.bg.usc == 0) || !check_program(
        mappings,
        &c.partial_eot,
        false,
    ) {
        return Err(Error::EINVAL);
    }
    p.load_pipeline = pipeline(c.bg.usc);
    p.load_pipeline_bind = load_bind(c.bg);
    p.partial_load_pipeline = pipeline(c.partial_bg.usc);
    p.partial_load_pipeline_bind = load_bind(c.partial_bg);
    p.store_pipeline = pipeline(c.eot.usc);
    p.store_pipeline_bind = c.eot.rsrc_spec as u64;
    p.partial_store_pipeline = pipeline(c.partial_eot.usc);
    p.partial_store_pipeline_bind = c.partial_eot.rsrc_spec as u64;
    p.request_tvb_growth = true;
    p.tiling_admission = 7;
    p.fragment_admission = 7;
    p.cycle = 0x24_0030;
    p.tiling_gate = 0xa9_0040_0020;
    p.fragment_gate = 0xd5_0040_0020;
    p.tiling_lifecycle = 0x0800_9f52_0900_a6bb;
    p.fragment_lifecycle = 0x0800_9f52_0900_a6ba;
    p.tiling_work_stamp = 0x120;
    p.fragment_work_stamp = 0x121;
    p.completion_control = 4;
    p.layermeta = p.heapmeta;
    if c.layers > 1 {
        p.heapmeta = p.heapmeta + 0x100;
    }
    Ok(p)
}

/// The parameters of an accepted render are valid.
pub proof fn lemma_accepted_is_valid(
    c: RenderCommand,
    flags: RenderFlags,
    mappings: Seq<Mapping>,
    start: u64,
    end: u64,
)
    requires
        render_ok(c, flags, mappings, start, end),
    ensures
        render_parameters_of(c, flags, start).is_valid(),
{
}

/// The parameters of an accepted compute command are valid, unless its stream is at address zero.
pub proof fn lemma_accepted_compute_is_valid(c: ComputeCommand, mappings: Seq<Mapping>, save: u64)
    requires
        compute_streams_ok(c),
        compute_mapped(c, mappings),
        c.cdm_ctrl_stream_base != 0,
    ensures
        (compute::Parameters { resource: save, ..compute_parameters_of(c) }).is_valid(),
{
}

} // verus!
