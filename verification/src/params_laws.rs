//! What the parameters of an accepted command name: the memory, the programs and the sizes of that command.
use crate::mapping;
use crate::mapping::Mapping;
use crate::params;
use crate::params::{ComputeCommand, RenderCommand, RenderFlags, TileProgram, ZlsBuffer};
use crate::render::Parameters;
use vstd::prelude::*;

verus! {

/// A render uses the buffers and arrays of its command, each for its own purpose.
pub proof fn lemma_render_names_buffers(c: RenderCommand, flags: RenderFlags, start: u64)
    ensures
        ({
            let p = params::render_parameters_of(c, flags, start);
            &&& p.encoder == c.vdm_ctrl_stream_base
            &&& p.scissor_array == c.isp_scissor_base
            &&& p.depth_bias_array == c.isp_dbias_base
            &&& p.occlusion_query_base == c.isp_oclqry_base
            &&& p.depth_buffer == c.depth.base
            &&& p.depth_aux_buffer == c.depth.comp_base
            &&& p.depth_stride == c.depth.stride
            &&& p.depth_aux_stride == c.depth.comp_stride
            &&& p.stencil_buffer == c.stencil.base
            &&& p.stencil_aux_buffer == c.stencil.comp_base
            &&& p.stencil_stride == c.stencil.stride
            &&& p.stencil_aux_stride == c.stencil.comp_stride
            &&& p.sampler_array == c.sampler_heap
            &&& p.sampler_count == c.sampler_count
        }),
{
}

/// A render has the geometry and the controls of its command.
pub proof fn lemma_render_names_geometry(c: RenderCommand, flags: RenderFlags, start: u64)
    ensures
        ({
            let p = params::render_parameters_of(c, flags, start);
            &&& p.width == c.width_px
            &&& p.height == c.height_px
            &&& p.layers == c.layers
            &&& p.utile_width == c.utile_width_px
            &&& p.utile_height == c.utile_height_px
            &&& p.samples == c.samples
            &&& p.sample_size == c.sample_size
            &&& p.multisample_control == c.ppp_multisamplectl
            &&& p.ppp_control == c.ppp_ctrl
            &&& p.merge_upper_x_bits == c.isp_merge_upper_x
            &&& p.merge_upper_y_bits == c.isp_merge_upper_y
            &&& p.depth_flags == c.zls_ctrl
            &&& p.depth_dimensions == c.isp_zls_pixels
            &&& p.depth_clear_value_bits == c.isp_bgobjdepth
            &&& p.stencil_clear_value == c.isp_bgobjvals
        }),
{
}

/// The address of a program: none where the command has none, else its offset in the shader aperture.
pub open spec fn program_at(program: TileProgram) -> int {
    if program.usc == 0 {
        0
    } else {
        0x100_0000_0000 + program.usc
    }
}

/// A render runs the programs of its command, each for its own purpose. Programs that load tiles have the
/// mark of a load in the word that binds their resources.
pub proof fn lemma_render_names_programs(c: RenderCommand, flags: RenderFlags, start: u64)
    ensures
        ({
            let p = params::render_parameters_of(c, flags, start);
            &&& p.load_pipeline == program_at(c.bg)
            &&& p.partial_load_pipeline == program_at(c.partial_bg)
            &&& p.store_pipeline == program_at(c.eot)
            &&& p.partial_store_pipeline == program_at(c.partial_eot)
            &&& p.store_pipeline_bind == c.eot.rsrc_spec
            &&& p.partial_store_pipeline_bind == c.partial_eot.rsrc_spec
            &&& c.bg.usc != 0 ==> p.load_pipeline_bind % 0x1_0000_0000 == c.bg.rsrc_spec
                && p.load_pipeline_bind / 0x1_0000_0000 == 0xffff_8000
            &&& c.bg.usc == 0 ==> p.load_pipeline_bind == 0
            &&& c.partial_bg.usc != 0 ==> p.partial_load_pipeline_bind % 0x1_0000_0000
                == c.partial_bg.rsrc_spec && p.partial_load_pipeline_bind / 0x1_0000_0000 == 0xffff_8000
            &&& c.partial_bg.usc == 0 ==> p.partial_load_pipeline_bind == 0
        }),
{
}

/// The layout words of a render: utile sizes in sixteens and samples in twos, in bits of their own; the flags
/// of empty tiles and layers; and enough tile memory for the samples of one utile, in blocks of 2048 bytes.
pub proof fn lemma_render_layout(c: RenderCommand, flags: RenderFlags, start: u64)
    requires
        c.samples < 8,
        c.utile_width_px < 64,
        c.utile_height_px < 64,
    ensures
        ({
            let p = params::render_parameters_of(c, flags, start);
            let bytes = c.sample_size * c.utile_width_px * c.utile_height_px * c.samples;
            let empty = c.flags & flags.process_empty_tiles != 0;
            &&& p.utile_config % 0x1000 == c.samples as int / 2
            &&& (p.utile_config / 0x1000) % 4 == c.utile_width_px as int / 16
            &&& p.utile_config / 0x4000 == c.utile_height_px as int / 16
            &&& p.process_empty_tiles == empty
            &&& p.tile_config % 0x1_0000 == 0x280 + (if c.layers > 1 { 1int } else { 0 })
            &&& p.tile_config / 0x1_0000 == (if empty { 1int } else { 0 })
            &&& p.aux_fb_flags == 0xc000u64 | ((c.flags & flags.dbias_is_int) as u64)
            &&& p.aux_fb_page_count == 0x10_0000
            &&& 2048 * (p.tib_blocks - 1) < bytes <= 2048 * p.tib_blocks
        }),
{
    let bytes = c.sample_size * c.utile_width_px * c.utile_height_px * c.samples;
    let a = c.sample_size * c.utile_width_px;
    assert(0 <= a <= 255 * 63) by (nonlinear_arith)
        requires
            a == c.sample_size * c.utile_width_px,
            c.sample_size <= 255,
            c.utile_width_px < 64,
    ;
    let b = a * c.utile_height_px;
    assert(0 <= b <= 255 * 63 * 63) by (nonlinear_arith)
        requires
            b == a * c.utile_height_px,
            0 <= a <= 255 * 63,
            c.utile_height_px < 64,
    ;
    assert(0 <= bytes <= 255 * 63 * 63 * 8) by (nonlinear_arith)
        requires
            bytes == b * c.samples,
            0 <= b <= 255 * 63 * 63,
            c.samples < 8,
    ;
}

/// A render keeps its own storage in the carveout of its client, each part at its place, and takes what the
/// driver decides from no command.
pub proof fn lemma_render_private(c: RenderCommand, flags: RenderFlags, start: u64, end: u64)
    requires
        Parameters::private_fits(start, end),
    ensures
        ({
            let p = params::render_parameters_of(c, flags, start);
            &&& p.context_base == 0x10_0000_0000
            &&& p.tilemap == start
            &&& p.tpc == start + 0x2_8000
            &&& p.deflake_3 == start + 0x2_c000
            &&& p.deflake_2 == start + 0x2_c020
            &&& p.deflake_1 == start + 0x2_c2a0
            &&& p.ta_status == start + 0x3_0240
            &&& p.fragment_status == start + 0x3_42c0
            &&& p.aux_fb == start + 0x3_8000
            &&& p.layermeta == start + 0x35d_0000
            &&& p.heapmeta == p.layermeta + (if c.layers > 1 { 0x100int } else { 0 })
            &&& p.request_tvb_growth
            &&& !p.fragment_sync_grow
            &&& !p.vdm_barrier_fragment
            &&& p.scene_slot == 0
            &&& p.queue_item_index == 0
            &&& p.tiling_admission == 7
            &&& p.fragment_admission == 7
            &&& p.cycle == 0x24_0030
            &&& p.tiling_gate == 0xa9_0040_0020
            &&& p.fragment_gate == 0xd5_0040_0020
            &&& p.tiling_lifecycle == 0x0800_9f52_0900_a6bb
            &&& p.fragment_lifecycle == p.tiling_lifecycle - 1
            &&& p.tiling_work_stamp == 0x120
            &&& p.fragment_work_stamp == p.tiling_work_stamp + 1
            &&& p.completion_control == 4
        }),
{
}

/// Commands that differ in what they name have different parameters.
pub proof fn lemma_render_parameters_tell_apart(
    a: RenderCommand,
    b: RenderCommand,
    flags: RenderFlags,
    start: u64,
)
    requires
        params::render_parameters_of(a, flags, start) == params::render_parameters_of(b, flags, start),
    ensures
        a.vdm_ctrl_stream_base == b.vdm_ctrl_stream_base,
        a.isp_scissor_base == b.isp_scissor_base,
        a.isp_dbias_base == b.isp_dbias_base,
        a.isp_oclqry_base == b.isp_oclqry_base,
        a.depth == b.depth,
        a.stencil == b.stencil,
        a.zls_ctrl == b.zls_ctrl,
        a.ppp_multisamplectl == b.ppp_multisamplectl,
        a.ppp_ctrl == b.ppp_ctrl,
        a.sampler_heap == b.sampler_heap,
        a.sampler_count == b.sampler_count,
        a.width_px == b.width_px,
        a.height_px == b.height_px,
        a.layers == b.layers,
        a.utile_width_px == b.utile_width_px,
        a.utile_height_px == b.utile_height_px,
        a.samples == b.samples,
        a.sample_size == b.sample_size,
        a.isp_merge_upper_x == b.isp_merge_upper_x,
        a.isp_merge_upper_y == b.isp_merge_upper_y,
        a.isp_zls_pixels == b.isp_zls_pixels,
        a.isp_bgobjdepth == b.isp_bgobjdepth,
        a.isp_bgobjvals == b.isp_bgobjvals,
        a.bg.usc == b.bg.usc,
        a.eot == b.eot,
        a.partial_bg.usc == b.partial_bg.usc,
        a.partial_eot == b.partial_eot,
{
}

/// Whether a depth or stencil buffer may be used: a buffer that is not there has no layout, layers need a
/// stride, strides are whole pages, and every layer is mapped for both reading and writing.
pub open spec fn buffer_usable(mappings: Seq<Mapping>, z: ZlsBuffer, layers: int) -> bool {
    let pages = z.stride as int / 0x4000;
    let aux = z.comp_stride as int / 0x4000;
    &&& z.base == 0 ==> z.comp_base == 0 && z.stride == 0 && z.comp_stride == 0
    &&& z.comp_base == 0 ==> z.comp_stride == 0
    &&& z.base != 0 && layers > 1 ==> z.stride != 0
    &&& z.stride == 0 || z.stride == pages * 0x4000 + 1
    &&& z.comp_stride == aux * 0x4000
    &&& z.base != 0 && z.stride != 0 ==> mapping::range_covered(
        mappings,
        z.base as int,
        (pages + 1) * 0x4000 * (layers - 1) + 1,
        6,
    )
    &&& z.base != 0 && z.stride == 0 ==> mapping::range_covered(mappings, z.base as int, 1, 6)
    &&& z.comp_base != 0 ==> mapping::range_covered(
        mappings,
        z.comp_base as int,
        (aux + 1) * 0x80 * (layers - 1) + 1,
        6,
    )
}

proof fn lemma_buffer_usable(mappings: Seq<Mapping>, z: ZlsBuffer, layers: u16)
    requires
        layers >= 1,
    ensures
        params::zls_ok(mappings, z, layers) == buffer_usable(mappings, z, layers as int),
{
    assert(0 * (layers - 1) == 0) by (nonlinear_arith);
    assert(z.stride % 0x4000 == z.stride - z.stride as int / 0x4000 * 0x4000);
    assert(z.comp_stride % 0x4000 == z.comp_stride - z.comp_stride as int / 0x4000 * 0x4000);
    if z.stride == 0 {
        assert(params::zls_stride(z) * (layers - 1) == 0) by (nonlinear_arith)
            requires
                params::zls_stride(z) == 0,
        ;
    }
}

/// A render is accepted only where all memory that it names is mapped, with the rights that its use needs:
/// streams, arrays and samplers for reading, query results for writing, depth and stencil for both.
pub proof fn lemma_render_memory(
    c: RenderCommand,
    flags: RenderFlags,
    mappings: Seq<Mapping>,
    start: u64,
    end: u64,
)
    requires
        params::render_ok(c, flags, mappings, start, end),
    ensures
        c.vdm_ctrl_stream_base != 0,
        c.vdm_ctrl_stream_base % 4 == 0,
        mapping::range_covered(mappings, c.vdm_ctrl_stream_base as int, 4, 2),
        c.isp_scissor_base != 0,
        c.isp_scissor_base % 8 == 0,
        mapping::range_covered(mappings, c.isp_scissor_base as int, 8, 2),
        c.isp_dbias_base != 0 ==> c.isp_dbias_base % 8 == 0 && mapping::range_covered(
            mappings,
            c.isp_dbias_base as int,
            8,
            2,
        ),
        c.isp_oclqry_base != 0 ==> c.isp_oclqry_base % 8 == 0 && mapping::range_covered(
            mappings,
            c.isp_oclqry_base as int,
            8,
            4,
        ),
        c.sampler_count <= 1024,
        c.sampler_heap % 8 == 0,
        (c.sampler_count == 0) == (c.sampler_heap == 0),
        c.sampler_count != 0 ==> mapping::range_covered(
            mappings,
            c.sampler_heap as int,
            8 * c.sampler_count,
            2,
        ),
        buffer_usable(mappings, c.depth, c.layers as int),
        buffer_usable(mappings, c.stencil, c.layers as int),
{
    lemma_buffer_usable(mappings, c.depth, c.layers);
    lemma_buffer_usable(mappings, c.stencil, c.layers);
}

/// A render is accepted only with the programs that it needs, where the first word of each is mapped: it
/// always stores tiles, loads them where a background is given, and can then also go on from a partial one.
pub proof fn lemma_render_programs(
    c: RenderCommand,
    flags: RenderFlags,
    mappings: Seq<Mapping>,
    start: u64,
    end: u64,
)
    requires
        params::render_ok(c, flags, mappings, start, end),
    ensures
        c.eot.usc != 0,
        c.partial_eot.usc != 0,
        c.bg.usc != 0 ==> c.partial_bg.usc != 0,
        c.bg.usc == 0 ==> c.bg.rsrc_spec == 0,
        c.partial_bg.usc == 0 ==> c.partial_bg.rsrc_spec == 0,
        mapping::range_covered(mappings, 0x100_0000_0000 + (c.eot.usc / 8) * 8, 4, 2),
        mapping::range_covered(mappings, 0x100_0000_0000 + (c.partial_eot.usc / 8) * 8, 4, 2),
        c.bg.usc != 0 ==> mapping::range_covered(mappings, 0x100_0000_0000 + (c.bg.usc / 8) * 8, 4, 2),
        c.partial_bg.usc != 0 ==> mapping::range_covered(
            mappings,
            0x100_0000_0000 + (c.partial_bg.usc / 8) * 8,
            4,
            2,
        ),
{
    assert(c.eot.usc - c.eot.usc as int % 8 == (c.eot.usc / 8) * 8);
    assert(c.partial_eot.usc - c.partial_eot.usc as int % 8 == (c.partial_eot.usc / 8) * 8);
    assert(c.bg.usc - c.bg.usc as int % 8 == (c.bg.usc / 8) * 8);
    assert(c.partial_bg.usc - c.partial_bg.usc as int % 8 == (c.partial_bg.usc / 8) * 8);
}

/// A render is accepted only with sizes that the hardware has.
pub proof fn lemma_render_sizes(
    c: RenderCommand,
    flags: RenderFlags,
    mappings: Seq<Mapping>,
    start: u64,
    end: u64,
)
    requires
        params::render_ok(c, flags, mappings, start, end),
    ensures
        1 <= c.width_px <= 16384,
        1 <= c.height_px <= 16384,
        1 <= c.layers <= 2048,
        c.utile_width_px == 32 || (c.utile_width_px == 16 && c.utile_height_px == 16),
        c.utile_height_px == 32 || c.utile_height_px == 16,
        c.samples == 1 || c.samples == 2 || c.samples == 4,
        c.sample_size * c.utile_width_px * c.utile_height_px * c.samples <= 32 * 2048,
        0x10_0000_0000 <= c.vdm_ctrl_stream_base <= 0x10_ffff_ffff,
        start % 0x4000 == 0,
        0x10_0000_0000 <= start,
        start + 0x6ab_8000 <= end,
        start + 0x35d_4000 <= 0x11_0000_0000,
{
    let bytes = c.sample_size * c.utile_width_px * c.utile_height_px * c.samples;
    let p = params::flat_parameters(c, flags, start);
    assert(0 <= bytes <= 255 * 32 * 32 * 4) by {
        let a = c.sample_size * c.utile_width_px;
        assert(0 <= a <= 255 * 32) by (nonlinear_arith)
            requires
                a == c.sample_size * c.utile_width_px,
                c.sample_size <= 255,
                c.utile_width_px <= 32,
        ;
        let b = a * c.utile_height_px;
        assert(0 <= b <= 255 * 32 * 32) by (nonlinear_arith)
            requires
                b == a * c.utile_height_px,
                0 <= a <= 255 * 32,
                c.utile_height_px <= 32,
        ;
        assert(0 <= bytes <= 255 * 32 * 32 * 4) by (nonlinear_arith)
            requires
                bytes == b * c.samples,
                0 <= b <= 255 * 32 * 32,
                c.samples <= 4,
        ;
    }
    assert(p.tib_blocks == params::tile_blocks(c));
}

/// A render that has all that is needed is accepted.
pub proof fn lemma_render_accepted(
    c: RenderCommand,
    flags: RenderFlags,
    mappings: Seq<Mapping>,
    start: u64,
    end: u64,
)
    requires
        1 <= c.width_px <= 16384,
        1 <= c.height_px <= 16384,
        1 <= c.layers <= 2048,
        c.utile_width_px == 32 || (c.utile_width_px == 16 && c.utile_height_px == 16),
        c.utile_height_px == 32 || c.utile_height_px == 16,
        c.samples == 1 || c.samples == 2 || c.samples == 4,
        params::tile_blocks(c) <= 32,
        0x10_0000_0000 <= c.vdm_ctrl_stream_base <= 0x10_ffff_ffff,
        c.vdm_ctrl_stream_base % 4 == 0,
        mapping::range_covered(mappings, c.vdm_ctrl_stream_base as int, 4, 2),
        start % 0x4000 == 0,
        0x10_0000_0000 <= start,
        start + 0x6ab_8000 <= end,
        start + 0x35d_4000 <= 0x11_0000_0000,
        c.isp_scissor_base != 0,
        c.isp_scissor_base % 8 == 0,
        mapping::range_covered(mappings, c.isp_scissor_base as int, 8, 2),
        c.isp_dbias_base == 0 || (c.isp_dbias_base % 8 == 0 && mapping::range_covered(
            mappings,
            c.isp_dbias_base as int,
            8,
            2,
        )),
        c.isp_oclqry_base == 0 || (c.isp_oclqry_base % 8 == 0 && mapping::range_covered(
            mappings,
            c.isp_oclqry_base as int,
            8,
            4,
        )),
        c.sampler_count <= 1024,
        c.sampler_heap % 8 == 0,
        (c.sampler_count == 0) == (c.sampler_heap == 0),
        c.sampler_count == 0 || mapping::range_covered(
            mappings,
            c.sampler_heap as int,
            8 * c.sampler_count,
            2,
        ),
        buffer_usable(mappings, c.depth, c.layers as int),
        buffer_usable(mappings, c.stencil, c.layers as int),
        c.eot.usc != 0,
        c.partial_eot.usc != 0,
        mapping::range_covered(mappings, 0x100_0000_0000 + (c.eot.usc / 8) * 8, 4, 2),
        mapping::range_covered(mappings, 0x100_0000_0000 + (c.partial_eot.usc / 8) * 8, 4, 2),
        if c.bg.usc == 0 {
            c.bg.rsrc_spec == 0
        } else {
            c.partial_bg.usc != 0 && mapping::range_covered(
                mappings,
                0x100_0000_0000 + (c.bg.usc / 8) * 8,
                4,
                2,
            )
        },
        if c.partial_bg.usc == 0 {
            c.partial_bg.rsrc_spec == 0
        } else {
            mapping::range_covered(mappings, 0x100_0000_0000 + (c.partial_bg.usc / 8) * 8, 4, 2)
        },
    ensures
        params::render_ok(c, flags, mappings, start, end),
{
    lemma_buffer_usable(mappings, c.depth, c.layers);
    lemma_buffer_usable(mappings, c.stencil, c.layers);
    assert(c.eot.usc - c.eot.usc as int % 8 == (c.eot.usc / 8) * 8);
    assert(c.partial_eot.usc - c.partial_eot.usc as int % 8 == (c.partial_eot.usc / 8) * 8);
    assert(c.bg.usc - c.bg.usc as int % 8 == (c.bg.usc / 8) * 8);
    assert(c.partial_bg.usc - c.partial_bg.usc as int % 8 == (c.partial_bg.usc / 8) * 8);
    let bytes = c.sample_size * c.utile_width_px * c.utile_height_px * c.samples;
    assert(bytes >= 0) by (nonlinear_arith)
        requires
            bytes == c.sample_size * c.utile_width_px * c.utile_height_px * c.samples,
            c.sample_size >= 0,
            c.utile_width_px >= 0,
            c.utile_height_px >= 0,
            c.samples >= 0,
    ;
    let p = params::flat_parameters(c, flags, start);
    p.lemma_private_in_reach(start, end);
    assert(p.tib_blocks == params::tile_blocks(c));
}

/// A compute runs the stream of its command, with the samplers of its command, on the storage of the device.
pub proof fn lemma_compute_names(c: ComputeCommand)
    ensures
        ({
            let p = params::compute_parameters_of(c);
            &&& p.cdm == c.cdm_ctrl_stream_base
            &&& p.cdm_end == c.cdm_ctrl_stream_end
            &&& p.sampler == c.sampler_heap
            &&& p.sampler_count == c.sampler_count
            &&& p.scratch == 0x70_030e_0000
            &&& p.marker == 0x10_00c6_0000
            &&& p.resource == 0
        }),
{
}

/// A compute is in order exactly where its stream is made of words, at least one, and its samplers are
/// aligned, at most 1024, and there exactly where a heap is; and all of both is mapped for reading.
pub proof fn lemma_compute_accepted(c: ComputeCommand, mappings: Seq<Mapping>)
    ensures
        (params::compute_streams_ok(c) && params::compute_mapped(c, mappings)) == ({
            let size = c.cdm_ctrl_stream_end - c.cdm_ctrl_stream_base;
            &&& c.cdm_ctrl_stream_base < c.cdm_ctrl_stream_end
            &&& c.cdm_ctrl_stream_base % 4 == 0
            &&& size % 4 == 0
            &&& c.sampler_count == 0 ==> c.sampler_heap == 0
            &&& c.sampler_heap == 0 ==> c.sampler_count == 0
            &&& c.sampler_heap % 8 == 0
            &&& c.sampler_count < 1025
            &&& mapping::range_covered(mappings, c.cdm_ctrl_stream_base as int, size, 2)
            &&& c.sampler_heap != 0 ==> mapping::range_covered(
                mappings,
                c.sampler_heap as int,
                8 * c.sampler_count,
                2,
            )
        }),
{
}

/// A command with a helper program, or with a flag that there is not, is not supported; and only such a one.
pub proof fn lemma_unsupported(c: RenderCommand, flags: RenderFlags)
    ensures
        params::unsupported(c, flags) == !({
            &&& c.flags & !(flags.process_empty_tiles | flags.dbias_is_int) == 0
            &&& c.vertex_helper.binary == 0 && c.vertex_helper.cfg == 0 && c.vertex_helper.data == 0
            &&& c.fragment_helper.binary == 0 && c.fragment_helper.cfg == 0 && c.fragment_helper.data == 0
        }),
{
}

} // verus!
