//! What a render asks of the registers: its geometry, and the values that both stages start with.
use crate::render;
use crate::render::{ceil_div, Parameters};
use vstd::prelude::*;

verus! {

/// Tiling starts with the storage of the render: each address is an offset from the context base.
pub proof fn lemma_tiling_storage(p: Parameters)
    requires
        p.is_valid(),
    ensures
        ({
            let w = p.tiling_writes();
            let g = p.geometry_of();
            let layermeta = if p.layermeta == 0 { p.heapmeta } else { p.layermeta };
            &&& w.len() == 71
            &&& w[0].0 == 0x01748 && w[0].1 == 1
            &&& w[1].0 == 0x10141 && w[1].1 == 512
            &&& w[2].0 == 0x1c039 && w[2].1 == p.tilemap - p.context_base
            &&& w[3].0 == 0x1c9c8 && w[3].1 == p.tilemap - p.context_base
            &&& w[4].0 == 0x1c0a1 && w[4].1 == p.tpc - p.context_base
            &&& w[5].0 == 0x1c031 && w[5].1 == 0x8000_0000_0000_0000 + (p.heapmeta - p.context_base)
            &&& w[6].0 == 0x1c9c0 && w[6].1 == 0x8000_0000_0000_0000 + (p.heapmeta - p.context_base)
            &&& w[7].0 == 0x1c051 && w[7].1 == 0x3a0012006b0003
            &&& w[8].0 == 0x1c061 && w[8].1 == 1
            &&& w[9].0 == 0x10149 && w[9].1 == p.utile_config
            &&& w[10].0 == 0x10139 && w[10].1 == p.multisample_control
            &&& w[11].0 == 0x10111 && w[11].1 == p.deflake_1 - p.context_base
            &&& w[12].0 == 0x1c9b0 && w[12].1 == p.deflake_1 - p.context_base
            &&& w[13].0 == 0x10119 && w[13].1 == p.deflake_2 - p.context_base
            &&& w[14].0 == 0x1c9b8 && w[14].1 == p.deflake_2 - p.context_base
            &&& w[15].0 == 0x1c958 && w[15].1 == 1
            &&& w[16].0 == 0x1c950 && w[16].1 == 0x4_0000_0000_0000 + (p.deflake_3 - p.context_base)
            &&& w[17].0 == 0x1c930 && w[17].1 == 0
            &&& w[18].0 == 0x1c880 && w[18].1 == p.encoder - p.context_base
            &&& w[19].0 == 0x1c079 && w[19].1 == layermeta - p.context_base
            &&& w[20].0 == 0x1c9d8 && w[20].1 == layermeta - p.context_base
        }),
{
    p.lemma_geometry();
}

/// Tiling goes on with the geometry of the render and the layers it draws.
pub proof fn lemma_tiling_geometry(p: Parameters)
    requires
        p.is_valid(),
    ensures
        ({
            let w = p.tiling_writes();
            let g = p.geometry_of();
            let layermeta = if p.layermeta == 0 { p.heapmeta } else { p.layermeta };
            &&& w.len() == 71
            &&& w[21].0 == 0x10151 && w[21].1 == 0
            &&& w[22].0 == 0x1c199 && w[22].1 == 0
            &&& w[23].0 == 0x1c1a1 && w[23].1 == 0
            &&& w[24].0 == 0x1c1a9 && w[24].1 == 0
            &&& w[25].0 == 0x1c1b1 && w[25].1 == 0
            &&& w[26].0 == 0x1c1b9 && w[26].1 == 0
            &&& w[27].0 == 0x1c8f8 && w[27].1 == 0x8860
            &&& w[28].0 == 0x1c0b1 && w[28].1 == g.size1
            &&& w[29].0 == 0x1c850 && w[29].1 == g.size1
            &&& w[30].0 == 0x10131 && w[30].1 == 0x88
            &&& w[31].0 == 0x10121 && w[31].1 == p.ppp_control
            &&& w[32].0 == 0x10129 && w[32].1 == g.pixels
            &&& w[33].0 == 0x101b9 && w[33].1 == g.screen
            &&& w[34].0 == 0x1c069 && w[34].1 == g.x_blocks
            &&& w[35].0 == 0x1c071 && w[35].1 == g.y_blocks
            &&& w[36].0 == 0x1c081 && w[36].1 == g.size2
            &&& w[37].0 == 0x1c0a9 && w[37].1 == g.size3
            &&& w[38].0 == 0x10171 && w[38].1 == 256
            &&& w[39].0 == 0x10169 && w[39].1 == (if p.layers > 1 { 0xe000 + (p.layers - 1) } else { 0x8000 })
            &&& w[40].0 == 0x0a309 && w[40].1 == 0
            &&& w[41].0 == 0x1c8e0 && w[41].1 == 0xffffffffffffffff
            &&& w[42].0 == 0x1c8e8 && w[42].1 == 0xffffffffffffffff
            &&& w[43].0 == 0x1c898 && w[43].1 == 0
            &&& w[44].0 == 0x101e1 && w[44].1 == 28
            &&& w[45].0 == 0x1c9e8 && w[45].1 == (if p.layers > 1 { 0x4000 + (p.layers - 1) } else { 0 })
        }),
{
    p.lemma_geometry();
}

/// Tiling ends with its lifecycle: admission, stamps, and where its status goes.
pub proof fn lemma_tiling_identity(p: Parameters)
    requires
        p.is_valid(),
    ensures
        ({
            let w = p.tiling_writes();
            let g = p.geometry_of();
            let layermeta = if p.layermeta == 0 { p.heapmeta } else { p.layermeta };
            &&& w.len() == 71
            &&& w[46].0 == 0x1a099 && w[46].1 == 0
            &&& w[47].0 == 0x1a0a1 && w[47].1 == 0
            &&& w[48].0 == 0x1a069 && w[48].1 == 0
            &&& w[49].0 == 0x1a071 && w[49].1 == 0
            &&& w[50].0 == 0x1a0c9 && w[50].1 == 0
            &&& w[51].0 == 0x1a0d1 && w[51].1 == 0
            &&& w[52].0 == 0x101c9 && w[52].1 == 0
            &&& w[53].0 == 0x0d471 && w[53].1 == 0
            &&& w[54].0 == 0x1a0f1 && w[54].1 == 8
            &&& w[55].0 == 0x10799 && w[55].1 == 0xff0000
            &&& w[56].0 == 0x1c830 && w[56].1 == p.tiling_admission
            &&& w[57].0 == 0x1ca30 && w[57].1 == p.cycle
            &&& w[58].0 == 0x16c39 && w[58].1 == p.cycle
            &&& w[59].0 == 0x1c910 && w[59].1 == 0x80005 + p.queue_item_index * 4
            &&& w[60].0 == 0x0a5a1 && w[60].1 == p.tiling_gate
            &&& w[61].0 == 0x0d419 && w[61].1 == 0x200000001
            &&& w[62].0 == 0x1ca10 && w[62].1 == p.tiling_lifecycle
            &&& w[63].0 == 0x014a1 && w[63].1 == p.tiling_lifecycle
            &&& w[64].0 == 0x0a349 && w[64].1 == p.tiling_lifecycle
            &&& w[65].0 == 0x10209 && w[65].1 == p.tiling_work_stamp
            &&& w[66].0 == 0x1c9f0 && w[66].1 == p.tiling_work_stamp
            &&& w[67].0 == 0x14320 && w[67].1 == p.tiling_work_stamp
            &&& w[68].0 == 0x14308 && w[68].1 == p.completion_control
            &&& w[69].0 == 0x14318 && w[69].1 == p.ta_status | 1
            &&& w[70].0 == 0x01740 && w[70].1 == 1
        }),
{
    p.lemma_geometry();
}

/// Shading starts with the programs and the arrays of the render.
pub proof fn lemma_fragment_programs(p: Parameters)
    requires
        p.is_valid(),
    ensures
        ({
            let w = p.fragment_writes();
            let g = p.geometry_of();
            let layermeta = if p.layermeta == 0 { p.heapmeta } else { p.layermeta };
            &&& w.len() == 87
            &&& w[0].0 == 0x01739 && w[0].1 == 1
            &&& w[1].0 == 0x10009 && w[1].1 == p.utile_config
            &&& w[2].0 == 0x15379 && w[2].1 == p.store_pipeline_bind
            &&& w[3].0 == 0x15381 && w[3].1 == p.store_pipeline
            &&& w[4].0 == 0x15369 && w[4].1 == p.load_pipeline_bind
            &&& w[5].0 == 0x15371 && w[5].1 == p.load_pipeline
            &&& w[6].0 == 0x15131 && w[6].1 == p.merge_upper_x_bits
            &&& w[7].0 == 0x15139 && w[7].1 == p.merge_upper_y_bits
            &&& w[8].0 == 0x100a1 && w[8].1 == 0
            &&& w[9].0 == 0x15069 && w[9].1 == 0
            &&& w[10].0 == 0x15071 && w[10].1 == 0
            &&& w[11].0 == 0x16058 && w[11].1 == 0
            &&& w[12].0 == 0x10019 && w[12].1 == p.multisample_control
            &&& w[13].0 == 0x100b1 && w[13].1 == g.macro_size
            &&& w[14].0 == 0x16030 && w[14].1 == g.macro_size
            &&& w[15].0 == 0x100d9 && w[15].1 == g.screen
            &&& w[16].0 == 0x0a301 && w[16].1 == 0
            &&& w[17].0 == 0x10791 && w[17].1 == 0xff0200
            &&& w[18].0 == 0x16098 && w[18].1 == p.heapmeta
            &&& w[19].0 == 0x15109 && w[19].1 == p.scissor_array
            &&& w[20].0 == 0x15101 && w[20].1 == p.depth_bias_array
            &&& w[21].0 == 0x15021 && w[21].1 == p.aux_fb_flags
            &&& w[22].0 == 0x15211 && w[22].1 == p.height * 0x1_0000_0000 + p.width
            &&& w[23].0 == 0x15049 && w[23].1 == p.aux_fb_page_count
            &&& w[24].0 == 0x10051 && w[24].1 == p.tib_of()
            &&& w[25].0 == 0x15321 && w[25].1 == p.depth_dimensions
            &&& w[26].0 == 0x15301 && w[26].1 == p.depth_clear_value_bits
            &&& w[27].0 == 0x15309 && w[27].1 == p.stencil_clear_value | 0x300
            &&& w[28].0 == 0x15311 && w[28].1 == p.occlusion_query_base
            &&& w[29].0 == 0x15319 && w[29].1 == p.depth_flags
            &&& w[30].0 == 0x15349 && w[30].1 == 0x4040404
            &&& w[31].0 == 0x15351 && w[31].1 == 0
        }),
{
    p.lemma_geometry();
}

/// Shading goes on with the depth and stencil buffers, each with its own stride, and with the tilemap.
pub proof fn lemma_fragment_buffers(p: Parameters)
    requires
        p.is_valid(),
    ensures
        ({
            let w = p.fragment_writes();
            let g = p.geometry_of();
            let layermeta = if p.layermeta == 0 { p.heapmeta } else { p.layermeta };
            &&& w.len() == 87
            &&& w[32].0 == 0x15329 && w[32].1 == p.depth_buffer
            &&& w[33].0 == 0x15331 && w[33].1 == p.depth_buffer
            &&& w[34].0 == 0x15339 && w[34].1 == p.stencil_buffer
            &&& w[35].0 == 0x15341 && w[35].1 == p.stencil_buffer
            &&& w[36].0 == 0x15231 && w[36].1 == 0
            &&& w[37].0 == 0x15221 && w[37].1 == 0
            &&& w[38].0 == 0x15239 && w[38].1 == 0
            &&& w[39].0 == 0x15229 && w[39].1 == 0
            &&& w[40].0 == 0x15401 && w[40].1 == p.depth_stride
            &&& w[41].0 == 0x15421 && w[41].1 == p.depth_stride
            &&& w[42].0 == 0x15409 && w[42].1 == p.stencil_stride
            &&& w[43].0 == 0x15429 && w[43].1 == p.stencil_stride
            &&& w[44].0 == 0x153c1 && w[44].1 == p.depth_aux_buffer
            &&& w[45].0 == 0x15411 && w[45].1 == p.depth_aux_stride
            &&& w[46].0 == 0x153c9 && w[46].1 == p.depth_aux_buffer
            &&& w[47].0 == 0x15431 && w[47].1 == p.depth_aux_stride
            &&& w[48].0 == 0x153d1 && w[48].1 == p.stencil_aux_buffer
            &&& w[49].0 == 0x15419 && w[49].1 == p.stencil_aux_stride
            &&& w[50].0 == 0x153d9 && w[50].1 == p.stencil_aux_buffer
            &&& w[51].0 == 0x15439 && w[51].1 == p.stencil_aux_stride
            &&& w[52].0 == 0x16429 && w[52].1 == p.tilemap
            &&& w[53].0 == 0x16060 && w[53].1 == layermeta
            &&& w[54].0 == 0x16431 && w[54].1 == g.size1 * 0x400_0000
            &&& w[55].0 == 0x10039 && w[55].1 == p.tile_config
            &&& w[56].0 == 0x16020 && w[56].1 == 0
            &&& w[57].0 == 0x16451 && w[57].1 == 0
            &&& w[58].0 == 0x15359 && w[58].1 == 0
            &&& w[59].0 == 0x100b8 && w[59].1 == 0x8860
        }),
{
    p.lemma_geometry();
}

/// Shading ends with its lifecycle: admission, stamps, and where its status goes.
pub proof fn lemma_fragment_identity(p: Parameters)
    requires
        p.is_valid(),
    ensures
        ({
            let w = p.fragment_writes();
            let g = p.geometry_of();
            let layermeta = if p.layermeta == 0 { p.heapmeta } else { p.layermeta };
            &&& w.len() == 87
            &&& w[60].0 == 0x16461 && w[60].1 == p.aux_fb
            &&& w[61].0 == 0x16090 && w[61].1 == p.aux_fb
            &&& w[62].0 == 0x101e9 && w[62].1 == 28
            &&& w[63].0 == 0x160a8 && w[63].1 == 0
            &&& w[64].0 == 0x16068 && w[64].1 == p.tile_state_of()
            &&& w[65].0 == 0x1a0a9 && w[65].1 == 0
            &&& w[66].0 == 0x1a0b1 && w[66].1 == 0
            &&& w[67].0 == 0x1a079 && w[67].1 == 0
            &&& w[68].0 == 0x1a081 && w[68].1 == 0
            &&& w[69].0 == 0x1a0d9 && w[69].1 == 0
            &&& w[70].0 == 0x1a0e1 && w[70].1 == 0
            &&& w[71].0 == 0x101c1 && w[71].1 == 0
            &&& w[72].0 == 0x0d469 && w[72].1 == 0
            &&& w[73].0 == 0x1a0f9 && w[73].1 == 8
            &&& w[74].0 == 0x0a5a9 && w[74].1 == p.fragment_gate
            &&& w[75].0 == 0x0d429 && w[75].1 == 0x200000001
            &&& w[76].0 == 0x160e0 && w[76].1 == p.fragment_lifecycle
            &&& w[77].0 == 0x01499 && w[77].1 == p.fragment_lifecycle
            &&& w[78].0 == 0x0a341 && w[78].1 == p.fragment_lifecycle
            &&& w[79].0 == 0x1c838 && w[79].1 == p.fragment_admission
            &&& w[80].0 == 0x1ca28 && w[80].1 == p.cycle
            &&& w[81].0 == 0x10211 && w[81].1 == p.fragment_work_stamp
            &&& w[82].0 == 0x10420 && w[82].1 == p.fragment_work_stamp
            &&& w[83].0 == 0x14048 && w[83].1 == p.completion_control
            &&& w[84].0 == 0x14080 && w[84].1 == p.fragment_status | 1
            &&& w[85].0 == 0x01731 && w[85].1 == 1
            &&& w[86].0 == 0x01731 && w[86].1 == 1
        }),
{
    p.lemma_geometry();
}

/// The tiles of a render are those of its last pixel column and row: `screen` names the last tile column in
/// its low bits and the last tile row above them, and `pixels` does the same for pixels.
pub proof fn lemma_tiles_hold_pixels(p: Parameters)
    requires
        p.is_valid(),
    ensures
        ({
            let g = p.geometry_of();
            &&& g.tiles_x - 1 == (p.width - 1) / 32
            &&& g.tiles_y - 1 == (p.height - 1) / 32
            &&& g.screen % 0x1000 == (p.width - 1) / 32
            &&& g.screen / 0x1000 == (p.height - 1) / 32
            &&& g.pixels % 0x1_0000 == p.width - 1
            &&& g.pixels / 0x1_0000 == p.height - 1
        }),
{
}

/// A macrotile column stands for four tile columns; they come in fours. The block counts of an axis are one,
/// two and three times its macrotiles, nine bits apart.
pub proof fn lemma_macrotiles(p: Parameters)
    requires
        p.is_valid(),
    ensures
        ({
            let g = p.geometry_of();
            let mx = 4 * ((p.width - 1) / 512 + 1);
            let my = 4 * ((p.height - 1) / 512 + 1);
            &&& g.x_blocks % 0x200 == 3 * mx
            &&& (g.x_blocks / 0x200) % 0x200 == 2 * mx
            &&& g.x_blocks / 0x4_0000 == mx
            &&& g.y_blocks % 0x200 == 3 * my
            &&& (g.y_blocks / 0x200) % 0x200 == 2 * my
            &&& g.y_blocks / 0x4_0000 == my
            &&& g.size2 == mx * my
        }),
{
    p.lemma_geometry();
    let mx = 4 * ((p.width - 1) / 512 + 1);
    let my = 4 * ((p.height - 1) / 512 + 1);
    assert(render::macrotiles(ceil_div(p.width as int, 32)) == mx);
    assert(render::macrotiles(ceil_div(p.height as int, 32)) == my);
    assert(4 <= mx <= 128 && 4 <= my <= 128);
    assert(16 <= mx * my <= 16384) by (nonlinear_arith)
        requires
            4 <= mx <= 128,
            4 <= my <= 128,
    ;
    lemma_packed(mx);
    lemma_packed(my);
}

proof fn lemma_packed(m: int)
    requires
        0 <= m <= 128,
    ensures
        render::block_counts(m) % 0x200 == 3 * m,
        (render::block_counts(m) / 0x200) % 0x200 == 2 * m,
        render::block_counts(m) / 0x4_0000 == m,
        0 <= render::block_counts(m) < 0x1_0000_0000,
{
}

/// The tilemap has room for five quarters of the utiles of all macrotiles, and the tile pointers for twice as
/// many. The macrotile size counts the utiles of a row in its high half, those of a column in its low half.
pub proof fn lemma_utiles(p: Parameters)
    requires
        p.is_valid(),
    ensures
        ({
            let g = p.geometry_of();
            let mx = 4 * ((p.width - 1) / 512 + 1);
            let my = 4 * ((p.height - 1) / 512 + 1);
            let across: int = if p.utile_width == 32 {
                1
            } else {
                2
            };
            let down: int = if p.utile_height == 32 {
                1
            } else {
                2
            };
            let utiles = (mx * across) * (my * down);
            &&& 4 * (g.size1 - 1) < 5 * utiles <= 4 * g.size1
            &&& g.size3 == 2 * utiles
            &&& g.macro_size % 0x1_0000 == my * down
            &&& g.macro_size / 0x1_0000 == mx * across
        }),
{
    p.lemma_geometry();
    let mx = 4 * ((p.width - 1) / 512 + 1);
    let my = 4 * ((p.height - 1) / 512 + 1);
    assert(render::macrotiles(ceil_div(p.width as int, 32)) == mx);
    assert(render::macrotiles(ceil_div(p.height as int, 32)) == my);
    let ux = 32int / p.utile_width as int;
    let uy = 32int / p.utile_height as int;
    assert(ux == (if p.utile_width == 32 { 1int } else { 2 }));
    assert(uy == (if p.utile_height == 32 { 1int } else { 2 }));
    let n = mx * my * ux * uy;
    assert((mx * ux) * (my * uy) == n) by (nonlinear_arith)
        requires
            n == mx * my * ux * uy,
    ;
    assert(5 * mx * my * ux * uy == 5 * n) by (nonlinear_arith)
        requires
            n == mx * my * ux * uy,
    ;
    assert(2 * mx * my * ux * uy == 2 * n) by (nonlinear_arith)
        requires
            n == mx * my * ux * uy,
    ;
    assert(0 <= n <= 65536) by (nonlinear_arith)
        requires
            n == mx * my * ux * uy,
            4 <= mx <= 128,
            4 <= my <= 128,
            1 <= ux <= 2,
            1 <= uy <= 2,
    ;
    assert(4 <= my * uy <= 256 && 4 <= mx * ux <= 256) by (nonlinear_arith)
        requires
            4 <= mx <= 128,
            4 <= my <= 128,
            1 <= ux <= 2,
            1 <= uy <= 2,
    ;
}

/// The tile state word holds the last tile of each axis, the flags of the utiles and the flag of layers, each
/// in bits of its own.
pub proof fn lemma_tile_state(p: Parameters)
    requires
        p.is_valid(),
    ensures
        ({
            let t = p.tile_state_of();
            &&& t % 0x1_0000_0000 == 0x3_717f
            &&& (t / 0x1_0000_0000) % 0x100 == 0x20 + (if p.layers > 1 { 1int } else { 0 })
            &&& (t / 0x100_0000_0000) % 0x10 == (p.utile_config / 0x1000) % 0x10
            &&& (t / 0x1000_0000_0000) % 0x200 == (p.width - 1) / 32
            &&& t / 0x20_0000_0000_0000 == (p.height - 1) / 32
        }),
{
    p.lemma_geometry();
    let g = p.geometry_of();
    let flags = 0x20 + (if p.layers > 1 { 1int } else { 0 });
    let u = (p.utile_config / 0x1000) as int % 0x10;
    let x = g.tiles_x - 1;
    let y = g.tiles_y - 1;
    assert(x == (p.width - 1) / 32 && y == (p.height - 1) / 32);
    lemma_fields(flags, u, x, y);
}

proof fn lemma_fields(flags: int, u: int, x: int, y: int)
    requires
        0 <= flags < 0x100,
        0 <= u < 0x10,
        0 <= x < 0x200,
        0 <= y < 0x200,
    ensures
        ({
            let t = 0x3_717f + flags * 0x1_0000_0000 + u * 0x100_0000_0000 + x * 0x1000_0000_0000 + y
                * 0x20_0000_0000_0000;
            &&& 0 <= t <= u64::MAX
            &&& t % 0x1_0000_0000 == 0x3_717f
            &&& (t / 0x1_0000_0000) % 0x100 == flags
            &&& (t / 0x100_0000_0000) % 0x10 == u
            &&& (t / 0x1000_0000_0000) % 0x200 == x
            &&& t / 0x20_0000_0000_0000 == y
        }),
{
    let t = 0x3_717f + flags * 0x1_0000_0000 + u * 0x100_0000_0000 + x * 0x1000_0000_0000 + y
        * 0x20_0000_0000_0000;
    assert(t / 0x1_0000_0000 == flags + u * 0x100 + x * 0x1000 + y * 0x20_0000);
    assert(t / 0x100_0000_0000 == u + x * 0x10 + y * 0x2000);
    assert(t / 0x1000_0000_0000 == x + y * 0x200);
    assert((flags + u * 0x100 + x * 0x1000 + y * 0x20_0000) % 0x100 == flags);
    assert((u + x * 0x10 + y * 0x2000) % 0x10 == u);
    assert((x + y * 0x200) % 0x200 == x);
}

/// The tile memory word counts blocks in six bits. Above them a multisampled render has its samples, doubled
/// where it takes more than 32 blocks.
pub proof fn lemma_tile_memory(p: Parameters)
    requires
        p.is_valid(),
    ensures
        p.tib_of() % 0x1_0000 == p.tib_blocks % 64,
        p.samples == 1 ==> p.tib_of() / 0x1_0000 == 0,
        p.samples > 1 && p.tib_blocks <= 32 ==> p.tib_of() / 0x1_0000 == p.samples,
        p.samples > 1 && p.tib_blocks > 32 ==> p.tib_of() / 0x1_0000 == 2 * p.samples,
{
}

/// A quotient that is rounded up is the smallest number of parts that hold all.
pub proof fn lemma_ceil_div(a: int, b: int)
    requires
        0 < b,
    ensures
        b * (ceil_div(a, b) - 1) < a <= b * ceil_div(a, b),
{
    let q = ceil_div(a, b);
    let r = (a + b - 1) % b;
    assert(a + b - 1 == b * q + r && 0 <= r < b) by (nonlinear_arith)
        requires
            0 < b,
            q == (a + b - 1) / b,
            r == (a + b - 1) % b,
    ;
    assert(b * (q - 1) == b * q - b) by (nonlinear_arith);
}

} // verus!
