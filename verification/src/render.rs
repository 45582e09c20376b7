//! Render register values and work encoding.
//!
//! Ordered register writes are significant, including duplicates. Addresses and lifecycle values are
//! supplied by the runtime; geometry is derived from each render.
use crate::bytes;
use crate::bytes::{at, copy_in, encode, fill, high32, low32, w16, w32, w64, w8, Field};
use vstd::prelude::*;

verus! {

/// What a render asks for, and the private storage it uses.
#[derive(Clone, Copy, Debug, PartialEq, Eq, Structural)]
pub struct Parameters {
    pub vdm_barrier_fragment: bool,
    pub scene_slot: u64,
    pub request_tvb_growth: bool,
    pub fragment_sync_grow: bool,
    pub process_empty_tiles: bool,
    pub partial_load_pipeline: u64,
    pub partial_load_pipeline_bind: u64,
    pub partial_store_pipeline: u64,
    pub partial_store_pipeline_bind: u64,
    pub sample_size: u64,
    pub sampler_array: u64,
    pub sampler_count: u64,
    pub aux_fb: u64,
    pub aux_fb_flags: u64,
    pub aux_fb_page_count: u64,
    pub completion_control: u64,
    pub context_base: u64,
    pub cycle: u64,
    pub deflake_1: u64,
    pub deflake_2: u64,
    pub deflake_3: u64,
    pub depth_aux_buffer: u64,
    pub depth_aux_stride: u64,
    pub depth_bias_array: u64,
    pub depth_buffer: u64,
    pub depth_clear_value_bits: u64,
    pub depth_dimensions: u64,
    pub depth_flags: u64,
    pub depth_stride: u64,
    pub encoder: u64,
    pub fragment_admission: u64,
    pub fragment_gate: u64,
    pub fragment_lifecycle: u64,
    pub fragment_status: u64,
    pub fragment_work_stamp: u64,
    pub heapmeta: u64,
    pub height: u64,
    pub layermeta: u64,
    pub layers: u64,
    pub load_pipeline: u64,
    pub load_pipeline_bind: u64,
    pub merge_upper_x_bits: u64,
    pub merge_upper_y_bits: u64,
    pub multisample_control: u64,
    pub occlusion_query_base: u64,
    pub ppp_control: u64,
    pub queue_item_index: u64,
    pub samples: u64,
    pub scissor_array: u64,
    pub stencil_aux_buffer: u64,
    pub stencil_aux_stride: u64,
    pub stencil_buffer: u64,
    pub stencil_clear_value: u64,
    pub stencil_stride: u64,
    pub store_pipeline: u64,
    pub store_pipeline_bind: u64,
    pub ta_status: u64,
    pub tib_blocks: u64,
    pub tile_config: u64,
    pub tilemap: u64,
    pub tiling_admission: u64,
    pub tiling_gate: u64,
    pub tiling_lifecycle: u64,
    pub tiling_work_stamp: u64,
    pub tpc: u64,
    pub utile_config: u64,
    pub utile_height: u64,
    pub utile_width: u64,
    pub width: u64,
}

impl Default for Parameters {
    fn default() -> (out: Self)
        ensures
            out == Parameters::zeroed(),
    {
        Parameters {
            vdm_barrier_fragment: false,
            scene_slot: 0,
            request_tvb_growth: false,
            fragment_sync_grow: false,
            process_empty_tiles: false,
            partial_load_pipeline: 0,
            partial_load_pipeline_bind: 0,
            partial_store_pipeline: 0,
            partial_store_pipeline_bind: 0,
            sample_size: 0,
            sampler_array: 0,
            sampler_count: 0,
            aux_fb: 0,
            aux_fb_flags: 0,
            aux_fb_page_count: 0,
            completion_control: 0,
            context_base: 0,
            cycle: 0,
            deflake_1: 0,
            deflake_2: 0,
            deflake_3: 0,
            depth_aux_buffer: 0,
            depth_aux_stride: 0,
            depth_bias_array: 0,
            depth_buffer: 0,
            depth_clear_value_bits: 0,
            depth_dimensions: 0,
            depth_flags: 0,
            depth_stride: 0,
            encoder: 0,
            fragment_admission: 0,
            fragment_gate: 0,
            fragment_lifecycle: 0,
            fragment_status: 0,
            fragment_work_stamp: 0,
            heapmeta: 0,
            height: 0,
            layermeta: 0,
            layers: 0,
            load_pipeline: 0,
            load_pipeline_bind: 0,
            merge_upper_x_bits: 0,
            merge_upper_y_bits: 0,
            multisample_control: 0,
            occlusion_query_base: 0,
            ppp_control: 0,
            queue_item_index: 0,
            samples: 0,
            scissor_array: 0,
            stencil_aux_buffer: 0,
            stencil_aux_stride: 0,
            stencil_buffer: 0,
            stencil_clear_value: 0,
            stencil_stride: 0,
            store_pipeline: 0,
            store_pipeline_bind: 0,
            ta_status: 0,
            tib_blocks: 0,
            tile_config: 0,
            tilemap: 0,
            tiling_admission: 0,
            tiling_gate: 0,
            tiling_lifecycle: 0,
            tiling_work_stamp: 0,
            tpc: 0,
            utile_config: 0,
            utile_height: 0,
            utile_width: 0,
            width: 0,
        }
    }
}

/// Sizes that follow from the dimensions of a render.
#[derive(Clone, Copy, Debug, PartialEq, Eq, Structural)]
pub struct Geometry {
    pub tiles_x: u64,
    pub tiles_y: u64,
    pub size1: u64,
    pub size2: u64,
    pub size3: u64,
    pub x_blocks: u64,
    pub y_blocks: u64,
    pub screen: u64,
    pub pixels: u64,
    pub macro_size: u64,
}

/// The quotient rounded up.
pub open spec fn ceil_div(a: int, b: int) -> int {
    (a + b - 1) / b
}

/// Number of macrotiles on one axis: quarters of the tiles, rounded up to a multiple of four.
pub open spec fn macrotiles(tiles: int) -> int {
    (ceil_div(tiles, 4) + 3) / 4 * 4
}

/// The three cumulative block counts of one axis, packed nine bits apart.
pub open spec fn block_counts(macrotiles: int) -> int {
    3 * macrotiles + 2 * macrotiles * 0x200 + macrotiles * 0x40000
}

/// Whether an address is given as a 32-bit offset from the context base.
pub open spec fn in_context(context_base: u64, address: u64) -> bool {
    context_base <= address <= context_base + 0xffff_ffff
}

impl Parameters {
    /// Parameters that ask for nothing.
    pub open spec fn zeroed() -> Self {
        Parameters {
            vdm_barrier_fragment: false,
            scene_slot: 0,
            request_tvb_growth: false,
            fragment_sync_grow: false,
            process_empty_tiles: false,
            partial_load_pipeline: 0,
            partial_load_pipeline_bind: 0,
            partial_store_pipeline: 0,
            partial_store_pipeline_bind: 0,
            sample_size: 0,
            sampler_array: 0,
            sampler_count: 0,
            aux_fb: 0,
            aux_fb_flags: 0,
            aux_fb_page_count: 0,
            completion_control: 0,
            context_base: 0,
            cycle: 0,
            deflake_1: 0,
            deflake_2: 0,
            deflake_3: 0,
            depth_aux_buffer: 0,
            depth_aux_stride: 0,
            depth_bias_array: 0,
            depth_buffer: 0,
            depth_clear_value_bits: 0,
            depth_dimensions: 0,
            depth_flags: 0,
            depth_stride: 0,
            encoder: 0,
            fragment_admission: 0,
            fragment_gate: 0,
            fragment_lifecycle: 0,
            fragment_status: 0,
            fragment_work_stamp: 0,
            heapmeta: 0,
            height: 0,
            layermeta: 0,
            layers: 0,
            load_pipeline: 0,
            load_pipeline_bind: 0,
            merge_upper_x_bits: 0,
            merge_upper_y_bits: 0,
            multisample_control: 0,
            occlusion_query_base: 0,
            ppp_control: 0,
            queue_item_index: 0,
            samples: 0,
            scissor_array: 0,
            stencil_aux_buffer: 0,
            stencil_aux_stride: 0,
            stencil_buffer: 0,
            stencil_clear_value: 0,
            stencil_stride: 0,
            store_pipeline: 0,
            store_pipeline_bind: 0,
            ta_status: 0,
            tib_blocks: 0,
            tile_config: 0,
            tilemap: 0,
            tiling_admission: 0,
            tiling_gate: 0,
            tiling_lifecycle: 0,
            tiling_work_stamp: 0,
            tpc: 0,
            utile_config: 0,
            utile_height: 0,
            utile_width: 0,
            width: 0,
        }
    }

    /// The layer metadata, which a single-layer render shares with the heap metadata.
    pub open spec fn layer_metadata_of(self) -> u64 {
        if self.layermeta == 0 {
            self.heapmeta
        } else {
            self.layermeta
        }
    }

    /// Whether the dimensions are those the hardware has, and all context storage is within reach of
    /// the context base.
    pub open spec fn is_valid(self) -> bool {
        &&& 1 <= self.width <= 16384
        &&& 1 <= self.height <= 16384
        &&& 1 <= self.layers <= 2048
        &&& (self.utile_width == 32 && self.utile_height == 32) || (self.utile_width == 32
            && self.utile_height == 16) || (self.utile_width == 16 && self.utile_height == 16)
        &&& self.samples == 1 || self.samples == 2 || self.samples == 4
        &&& self.tib_blocks <= 64
        &&& self.queue_item_index <= 0xffff
        &&& (self.sampler_array == 0) == (self.sampler_count == 0)
        &&& self.sampler_array % 8 == 0
        &&& self.sampler_count < 0xffff_ffff
        &&& in_context(self.context_base, self.tilemap)
        &&& in_context(self.context_base, self.heapmeta)
        &&& in_context(self.context_base, self.layer_metadata_of())
        &&& in_context(self.context_base, self.tpc)
        &&& in_context(self.context_base, self.deflake_1)
        &&& in_context(self.context_base, self.deflake_2)
        &&& in_context(self.context_base, self.deflake_3)
        &&& in_context(self.context_base, self.encoder)
    }

    /// Whether an address is a 32-bit offset from the context base.
    fn reachable(&self, address: u64) -> (out: bool)
        ensures
            out == in_context(self.context_base, address),
    {
        address >= self.context_base && address - self.context_base <= 0xffff_ffff
    }

    /// Whether the parameters are valid.
    pub fn valid(&self) -> (out: bool)
        ensures
            out == self.is_valid(),
    {
        self.width >= 1 && self.width <= 16384 && self.height >= 1 && self.height <= 16384
            && self.layers >= 1 && self.layers <= 2048 && ((self.utile_width == 32
            && self.utile_height == 32) || (self.utile_width == 32 && self.utile_height == 16) || (
        self.utile_width == 16 && self.utile_height == 16)) && (self.samples == 1 || self.samples
            == 2 || self.samples == 4) && self.tib_blocks <= 64 && self.queue_item_index <= 0xffff
            && (self.sampler_array == 0) == (self.sampler_count == 0) && self.sampler_array % 8 == 0
            && self.sampler_count < 0xffff_ffff && self.reachable(self.tilemap) && self.reachable(
            self.heapmeta,
        ) && self.reachable(self.layer_metadata()) && self.reachable(self.tpc) && self.reachable(
            self.deflake_1,
        ) && self.reachable(self.deflake_2) && self.reachable(self.deflake_3) && self.reachable(
            self.encoder,
        )
    }

    /// The offset of an address from the context base.
    pub fn ta_offset(&self, address: u64) -> (out: u64)
        requires
            self.context_base <= address,
        ensures
            out == address - self.context_base,
    {
        address - self.context_base
    }

    /// The layer metadata.
    pub fn layer_metadata(&self) -> (out: u64)
        ensures
            out == self.layer_metadata_of(),
    {
        if self.layermeta == 0 {
            self.heapmeta
        } else {
            self.layermeta
        }
    }

    /// How many blocks of tile memory a render takes, with the bank tag of a multisampled one. The
    /// low field wraps at 64 blocks; multisampled renders double their tag above 32 blocks.
    pub open spec fn tib_of(self) -> u64 {
        if self.samples == 1 {
            self.tib_blocks % 64
        } else {
            (self.samples * (if self.tib_blocks > 32 {
                2int
            } else {
                1
            }) * 0x10000 + self.tib_blocks % 64) as u64
        }
    }

    /// The tile memory of a render.
    pub fn tib_encoding(&self) -> (out: u64)
        requires
            self.samples <= 4,
        ensures
            out == self.tib_of(),
    {
        let blocks: u64 = self.tib_blocks % 64;
        if self.samples == 1 {
            blocks
        } else {
            let banks: u64 = if self.tib_blocks > 32 {
                2
            } else {
                1
            };
            self.samples * banks * 0x10000 + blocks
        }
    }

    /// The sizes of a render.
    pub open spec fn geometry_of(self) -> Geometry {
        let tx = ceil_div(self.width as int, 32);
        let ty = ceil_div(self.height as int, 32);
        let mx = macrotiles(tx);
        let my = macrotiles(ty);
        let ux = 32int / self.utile_width as int;
        let uy = 32int / self.utile_height as int;
        Geometry {
            tiles_x: tx as u64,
            tiles_y: ty as u64,
            size1: ceil_div(5 * mx * my * ux * uy, 4) as u64,
            size2: (mx * my) as u64,
            size3: (2 * mx * my * ux * uy) as u64,
            x_blocks: block_counts(mx) as u64,
            y_blocks: block_counts(my) as u64,
            screen: ((ty - 1) * 0x1000 + (tx - 1)) as u64,
            pixels: ((self.width - 1) + (self.height - 1) * 0x10000) as u64,
            macro_size: (my * uy + mx * ux * 0x10000) as u64,
        }
    }

    /// The sizes of a render stay within the fields that hold them.
    pub proof fn lemma_geometry(self)
        requires
            self.is_valid(),
        ensures
            ({
                let g = self.geometry_of();
                &&& 1 <= g.tiles_x <= 512
                &&& 1 <= g.tiles_y <= 512
                &&& 20 <= g.size1 <= 81920
                &&& 16 <= g.size2 <= 16384
                &&& 32 <= g.size3 <= 131072
                &&& g.macro_size <= 0x0100_0100
            }),
    {
        let mx = macrotiles(ceil_div(self.width as int, 32));
        let my = macrotiles(ceil_div(self.height as int, 32));
        let ux = 32int / self.utile_width as int;
        let uy = 32int / self.utile_height as int;
        assert(1 <= ux <= 2 && 1 <= uy <= 2);
        assert(4 <= mx <= 128 && 4 <= my <= 128);
        assert(16 <= mx * my <= 16384) by (nonlinear_arith)
            requires
                4 <= mx <= 128,
                4 <= my <= 128,
        ;
        let a = mx * my;
        assert(a <= a * ux <= 2 * a) by (nonlinear_arith)
            requires
                1 <= ux <= 2,
                a >= 0,
        ;
        let b = a * ux;
        assert(b <= b * uy <= 2 * b) by (nonlinear_arith)
            requires
                1 <= uy <= 2,
                b >= 0,
        ;
        assert(5 * mx * my * ux * uy == 5 * (mx * my * ux * uy)) by (nonlinear_arith);
        assert(2 * mx * my * ux * uy == 2 * (mx * my * ux * uy)) by (nonlinear_arith);
        assert(my * uy <= 256 && mx * ux <= 256) by (nonlinear_arith)
            requires
                4 <= mx <= 128,
                4 <= my <= 128,
                1 <= ux <= 2,
                1 <= uy <= 2,
        ;
    }

    /// The sizes of a render.
    pub fn geometry(&self) -> (out: Geometry)
        requires
            self.is_valid(),
        ensures
            out == self.geometry_of(),
    {
        proof {
            self.lemma_geometry();
        }
        let tx: u64 = (self.width + 31) / 32;
        let ty: u64 = (self.height + 31) / 32;
        let mx: u64 = ((tx + 3) / 4 + 3) / 4 * 4;
        let my: u64 = ((ty + 3) / 4 + 3) / 4 * 4;
        let ux: u64 = 32 / self.utile_width;
        let uy: u64 = 32 / self.utile_height;
        assert(1 <= ux <= 2 && 1 <= uy <= 2);
        assert(4 <= mx <= 128 && 4 <= my <= 128);
        assert(mx * my <= 16384) by (nonlinear_arith)
            requires
                4 <= mx <= 128,
                4 <= my <= 128,
        ;
        let area: u64 = mx * my;
        assert(area * ux <= 32768) by (nonlinear_arith)
            requires
                area <= 16384,
                ux <= 2,
        ;
        let wide: u64 = area * ux;
        assert(wide * uy <= 65536) by (nonlinear_arith)
            requires
                wide <= 32768,
                uy <= 2,
        ;
        let micro: u64 = wide * uy;
        assert(micro == mx * my * ux * uy);
        assert(5 * mx * my * ux * uy == 5 * (mx * my * ux * uy)) by (nonlinear_arith);
        assert(2 * mx * my * ux * uy == 2 * (mx * my * ux * uy)) by (nonlinear_arith);
        assert(my * uy <= 256 && mx * ux <= 256) by (nonlinear_arith)
            requires
                4 <= mx <= 128,
                4 <= my <= 128,
                1 <= ux <= 2,
                1 <= uy <= 2,
        ;
        Geometry {
            tiles_x: tx,
            tiles_y: ty,
            size1: (5 * micro + 3) / 4,
            size2: area,
            size3: 2 * micro,
            x_blocks: 3 * mx + 2 * mx * 0x200 + mx * 0x40000,
            y_blocks: 3 * my + 2 * my * 0x200 + my * 0x40000,
            screen: (ty - 1) * 0x1000 + (tx - 1),
            pixels: (self.width - 1) + (self.height - 1) * 0x10000,
            macro_size: my * uy + mx * ux * 0x10000,
        }
    }

    /// The register writes that start the tiling of a render.
    pub open spec fn tiling_writes(self) -> Seq<(u32, u64)> {
        let g = self.geometry_of();
        let tilemap = (self.tilemap - self.context_base) as u64;
        let heapmeta = (self.heapmeta - self.context_base) as u64;
        let layermeta = (self.layer_metadata_of() - self.context_base) as u64;
        let tpc = (self.tpc - self.context_base) as u64;
        let deflake_1 = (self.deflake_1 - self.context_base) as u64;
        let deflake_2 = (self.deflake_2 - self.context_base) as u64;
        let deflake_3 = (self.deflake_3 - self.context_base) as u64;
        let encoder = (self.encoder - self.context_base) as u64;
        let target_layers = if self.layers > 1 {
            (0xe000 + (self.layers - 1)) as u64
        } else {
            0x8000
        };
        let layer_bits = if self.layers > 1 {
            (0x4000 + (self.layers - 1)) as u64
        } else {
            0
        };
        let record_index = (0x80005 + self.queue_item_index * 4) as u64;
        seq![
            (0x01748u32, 1u64),
            (0x10141, 512),
            (0x1c039, tilemap),
            (0x1c9c8, tilemap),
            (0x1c0a1, tpc),
            (0x1c031, at(heapmeta, 0x8000_0000_0000_0000)),
            (0x1c9c0, at(heapmeta, 0x8000_0000_0000_0000)),
            (0x1c051, 0x3a0012006b0003),
            (0x1c061, 1),
            (0x10149, self.utile_config),
            (0x10139, self.multisample_control),
            (0x10111, deflake_1),
            (0x1c9b0, deflake_1),
            (0x10119, deflake_2),
            (0x1c9b8, deflake_2),
            (0x1c958, 1),
            (0x1c950, at(deflake_3, 0x4_0000_0000_0000)),
            (0x1c930, 0),
            (0x1c880, encoder),
            (0x1c079, layermeta),
            (0x1c9d8, layermeta),
            (0x10151, 0),
            (0x1c199, 0),
            (0x1c1a1, 0),
            (0x1c1a9, 0),
            (0x1c1b1, 0),
            (0x1c1b9, 0),
            (0x1c8f8, 0x8860),
            (0x1c0b1, g.size1),
            (0x1c850, g.size1),
            (0x10131, 0x88),
            (0x10121, self.ppp_control),
            (0x10129, g.pixels),
            (0x101b9, g.screen),
            (0x1c069, g.x_blocks),
            (0x1c071, g.y_blocks),
            (0x1c081, g.size2),
            (0x1c0a9, g.size3),
            (0x10171, 256),
            (0x10169, target_layers),
            (0x0a309, 0),
            (0x1c8e0, 0xffffffffffffffff),
            (0x1c8e8, 0xffffffffffffffff),
            (0x1c898, 0),
            (0x101e1, 28),
            (0x1c9e8, layer_bits),
            (0x1a099, 0),
            (0x1a0a1, 0),
            (0x1a069, 0),
            (0x1a071, 0),
            (0x1a0c9, 0),
            (0x1a0d1, 0),
            (0x101c9, 0),
            (0x0d471, 0),
            (0x1a0f1, 8),
            (0x10799, 0xff0000),
            (0x1c830, self.tiling_admission),
            (0x1ca30, self.cycle),
            (0x16c39, self.cycle),
            (0x1c910, record_index),
            (0x0a5a1, self.tiling_gate),
            (0x0d419, 0x200000001),
            (0x1ca10, self.tiling_lifecycle),
            (0x014a1, self.tiling_lifecycle),
            (0x0a349, self.tiling_lifecycle),
            (0x10209, self.tiling_work_stamp),
            (0x1c9f0, self.tiling_work_stamp),
            (0x14320, self.tiling_work_stamp),
            (0x14308, self.completion_control),
            (0x14318, self.ta_status | 1),
            (0x01740, 1),
        ]
    }

    /// The register writes that start the tiling of a render, unless its parameters are invalid.
    pub fn tiling_registers(&self) -> (out: Option<[(u32, u64); 71]>)
        ensures
            if self.is_valid() {
                out is Some && (out->0)@ == self.tiling_writes()
            } else {
                out is None
            },
    {
        if !self.valid() {
            return None;
        }
        let g: Geometry = self.geometry();
        let tilemap: u64 = self.ta_offset(self.tilemap);
        let heapmeta: u64 = self.ta_offset(self.heapmeta);
        let layermeta: u64 = self.ta_offset(self.layer_metadata());
        let tpc: u64 = self.ta_offset(self.tpc);
        let deflake_1: u64 = self.ta_offset(self.deflake_1);
        let deflake_2: u64 = self.ta_offset(self.deflake_2);
        let deflake_3: u64 = self.ta_offset(self.deflake_3);
        let encoder: u64 = self.ta_offset(self.encoder);
        let target_layers: u64 = if self.layers > 1 {
            0xe000 + (self.layers - 1)
        } else {
            0x8000
        };
        let layer_bits: u64 = if self.layers > 1 {
            0x4000 + (self.layers - 1)
        } else {
            0
        };
        let record_index: u64 = 0x80005 + self.queue_item_index * 4;
        let out: [(u32, u64); 71] = [
            (0x01748u32, 1u64),
            (0x10141, 512),
            (0x1c039, tilemap),
            (0x1c9c8, tilemap),
            (0x1c0a1, tpc),
            (0x1c031, at(heapmeta, 0x8000_0000_0000_0000)),
            (0x1c9c0, at(heapmeta, 0x8000_0000_0000_0000)),
            (0x1c051, 0x3a0012006b0003),
            (0x1c061, 1),
            (0x10149, self.utile_config),
            (0x10139, self.multisample_control),
            (0x10111, deflake_1),
            (0x1c9b0, deflake_1),
            (0x10119, deflake_2),
            (0x1c9b8, deflake_2),
            (0x1c958, 1),
            (0x1c950, at(deflake_3, 0x4_0000_0000_0000)),
            (0x1c930, 0),
            (0x1c880, encoder),
            (0x1c079, layermeta),
            (0x1c9d8, layermeta),
            (0x10151, 0),
            (0x1c199, 0),
            (0x1c1a1, 0),
            (0x1c1a9, 0),
            (0x1c1b1, 0),
            (0x1c1b9, 0),
            (0x1c8f8, 0x8860),
            (0x1c0b1, g.size1),
            (0x1c850, g.size1),
            (0x10131, 0x88),
            (0x10121, self.ppp_control),
            (0x10129, g.pixels),
            (0x101b9, g.screen),
            (0x1c069, g.x_blocks),
            (0x1c071, g.y_blocks),
            (0x1c081, g.size2),
            (0x1c0a9, g.size3),
            (0x10171, 256),
            (0x10169, target_layers),
            (0x0a309, 0),
            (0x1c8e0, 0xffffffffffffffff),
            (0x1c8e8, 0xffffffffffffffff),
            (0x1c898, 0),
            (0x101e1, 28),
            (0x1c9e8, layer_bits),
            (0x1a099, 0),
            (0x1a0a1, 0),
            (0x1a069, 0),
            (0x1a071, 0),
            (0x1a0c9, 0),
            (0x1a0d1, 0),
            (0x101c9, 0),
            (0x0d471, 0),
            (0x1a0f1, 8),
            (0x10799, 0xff0000),
            (0x1c830, self.tiling_admission),
            (0x1ca30, self.cycle),
            (0x16c39, self.cycle),
            (0x1c910, record_index),
            (0x0a5a1, self.tiling_gate),
            (0x0d419, 0x200000001),
            (0x1ca10, self.tiling_lifecycle),
            (0x014a1, self.tiling_lifecycle),
            (0x0a349, self.tiling_lifecycle),
            (0x10209, self.tiling_work_stamp),
            (0x1c9f0, self.tiling_work_stamp),
            (0x14320, self.tiling_work_stamp),
            (0x14308, self.completion_control),
            (0x14318, self.ta_status | 1),
            (0x01740, 1),
        ];
        assert(out@ =~= self.tiling_writes());
        Some(out)
    }

    /// The tile state word: the last tile on each axis, the tile flags and the layer flag.
    pub open spec fn tile_state_of(self) -> u64 {
        let g = self.geometry_of();
        (0x20_0003_717f + (g.tiles_x - 1) * 0x1000_0000_0000 + (g.tiles_y - 1)
            * 0x20_0000_0000_0000 + (if self.layers > 1 {
            0x1_0000_0000int
        } else {
            0
        }) + ((self.utile_config / 0x1000) % 16) * 0x100_0000_0000) as u64
    }

    /// The register writes that start the fragment stage of a render.
    pub open spec fn fragment_writes(self) -> Seq<(u32, u64)> {
        let g = self.geometry_of();
        let size = (self.height * 0x1_0000_0000 + self.width) as u64;
        let tib = self.tib_of();
        let layermeta = self.layer_metadata_of();
        let region = (g.size1 * 0x400_0000) as u64;
        let tile_state = self.tile_state_of();
        seq![
            (0x01739u32, 1u64),
            (0x10009, self.utile_config),
            (0x15379, self.store_pipeline_bind),
            (0x15381, self.store_pipeline),
            (0x15369, self.load_pipeline_bind),
            (0x15371, self.load_pipeline),
            (0x15131, self.merge_upper_x_bits),
            (0x15139, self.merge_upper_y_bits),
            (0x100a1, 0),
            (0x15069, 0),
            (0x15071, 0),
            (0x16058, 0),
            (0x10019, self.multisample_control),
            (0x100b1, g.macro_size),
            (0x16030, g.macro_size),
            (0x100d9, g.screen),
            (0x0a301, 0),
            (0x10791, 0xff0200),
            (0x16098, self.heapmeta),
            (0x15109, self.scissor_array),
            (0x15101, self.depth_bias_array),
            (0x15021, self.aux_fb_flags),
            (0x15211, size),
            (0x15049, self.aux_fb_page_count),
            (0x10051, tib),
            (0x15321, self.depth_dimensions),
            (0x15301, self.depth_clear_value_bits),
            (0x15309, self.stencil_clear_value | 0x300),
            (0x15311, self.occlusion_query_base),
            (0x15319, self.depth_flags),
            (0x15349, 0x4040404),
            (0x15351, 0),
            (0x15329, self.depth_buffer),
            (0x15331, self.depth_buffer),
            (0x15339, self.stencil_buffer),
            (0x15341, self.stencil_buffer),
            (0x15231, 0),
            (0x15221, 0),
            (0x15239, 0),
            (0x15229, 0),
            (0x15401, self.depth_stride),
            (0x15421, self.depth_stride),
            (0x15409, self.stencil_stride),
            (0x15429, self.stencil_stride),
            (0x153c1, self.depth_aux_buffer),
            (0x15411, self.depth_aux_stride),
            (0x153c9, self.depth_aux_buffer),
            (0x15431, self.depth_aux_stride),
            (0x153d1, self.stencil_aux_buffer),
            (0x15419, self.stencil_aux_stride),
            (0x153d9, self.stencil_aux_buffer),
            (0x15439, self.stencil_aux_stride),
            (0x16429, self.tilemap),
            (0x16060, layermeta),
            (0x16431, region),
            (0x10039, self.tile_config),
            (0x16020, 0),
            (0x16451, 0),
            (0x15359, 0),
            (0x100b8, 0x8860),
            (0x16461, self.aux_fb),
            (0x16090, self.aux_fb),
            (0x101e9, 28),
            (0x160a8, 0),
            (0x16068, tile_state),
            (0x1a0a9, 0),
            (0x1a0b1, 0),
            (0x1a079, 0),
            (0x1a081, 0),
            (0x1a0d9, 0),
            (0x1a0e1, 0),
            (0x101c1, 0),
            (0x0d469, 0),
            (0x1a0f9, 8),
            (0x0a5a9, self.fragment_gate),
            (0x0d429, 0x200000001),
            (0x160e0, self.fragment_lifecycle),
            (0x01499, self.fragment_lifecycle),
            (0x0a341, self.fragment_lifecycle),
            (0x1c838, self.fragment_admission),
            (0x1ca28, self.cycle),
            (0x10211, self.fragment_work_stamp),
            (0x10420, self.fragment_work_stamp),
            (0x14048, self.completion_control),
            (0x14080, self.fragment_status | 1),
            (0x01731, 1),
            (0x01731, 1),
        ]
    }

    /// The register writes that start the fragment stage of a render, unless its parameters are
    /// invalid.
    pub fn fragment_registers(&self) -> (out: Option<[(u32, u64); 87]>)
        ensures
            if self.is_valid() {
                out is Some && (out->0)@ == self.fragment_writes()
            } else {
                out is None
            },
    {
        if !self.valid() {
            return None;
        }
        proof {
            self.lemma_geometry();
        }
        let g: Geometry = self.geometry();
        let layered: u64 = if self.layers > 1 {
            0x1_0000_0000
        } else {
            0
        };
        let tile_state: u64 = 0x20_0003_717f + (g.tiles_x - 1) * 0x1000_0000_0000 + (g.tiles_y - 1)
            * 0x20_0000_0000_0000 + layered + ((self.utile_config / 0x1000) % 16)
            * 0x100_0000_0000;
        let size: u64 = self.height * 0x1_0000_0000 + self.width;
        let tib: u64 = self.tib_encoding();
        let layermeta: u64 = self.layer_metadata();
        let region: u64 = g.size1 * 0x400_0000;
        let out: [(u32, u64); 87] = [
            (0x01739u32, 1u64),
            (0x10009, self.utile_config),
            (0x15379, self.store_pipeline_bind),
            (0x15381, self.store_pipeline),
            (0x15369, self.load_pipeline_bind),
            (0x15371, self.load_pipeline),
            (0x15131, self.merge_upper_x_bits),
            (0x15139, self.merge_upper_y_bits),
            (0x100a1, 0),
            (0x15069, 0),
            (0x15071, 0),
            (0x16058, 0),
            (0x10019, self.multisample_control),
            (0x100b1, g.macro_size),
            (0x16030, g.macro_size),
            (0x100d9, g.screen),
            (0x0a301, 0),
            (0x10791, 0xff0200),
            (0x16098, self.heapmeta),
            (0x15109, self.scissor_array),
            (0x15101, self.depth_bias_array),
            (0x15021, self.aux_fb_flags),
            (0x15211, size),
            (0x15049, self.aux_fb_page_count),
            (0x10051, tib),
            (0x15321, self.depth_dimensions),
            (0x15301, self.depth_clear_value_bits),
            (0x15309, self.stencil_clear_value | 0x300),
            (0x15311, self.occlusion_query_base),
            (0x15319, self.depth_flags),
            (0x15349, 0x4040404),
            (0x15351, 0),
            (0x15329, self.depth_buffer),
            (0x15331, self.depth_buffer),
            (0x15339, self.stencil_buffer),
            (0x15341, self.stencil_buffer),
            (0x15231, 0),
            (0x15221, 0),
            (0x15239, 0),
            (0x15229, 0),
            (0x15401, self.depth_stride),
            (0x15421, self.depth_stride),
            (0x15409, self.stencil_stride),
            (0x15429, self.stencil_stride),
            (0x153c1, self.depth_aux_buffer),
            (0x15411, self.depth_aux_stride),
            (0x153c9, self.depth_aux_buffer),
            (0x15431, self.depth_aux_stride),
            (0x153d1, self.stencil_aux_buffer),
            (0x15419, self.stencil_aux_stride),
            (0x153d9, self.stencil_aux_buffer),
            (0x15439, self.stencil_aux_stride),
            (0x16429, self.tilemap),
            (0x16060, layermeta),
            (0x16431, region),
            (0x10039, self.tile_config),
            (0x16020, 0),
            (0x16451, 0),
            (0x15359, 0),
            (0x100b8, 0x8860),
            (0x16461, self.aux_fb),
            (0x16090, self.aux_fb),
            (0x101e9, 28),
            (0x160a8, 0),
            (0x16068, tile_state),
            (0x1a0a9, 0),
            (0x1a0b1, 0),
            (0x1a079, 0),
            (0x1a081, 0),
            (0x1a0d9, 0),
            (0x1a0e1, 0),
            (0x101c1, 0),
            (0x0d469, 0),
            (0x1a0f9, 8),
            (0x0a5a9, self.fragment_gate),
            (0x0d429, 0x200000001),
            (0x160e0, self.fragment_lifecycle),
            (0x01499, self.fragment_lifecycle),
            (0x0a341, self.fragment_lifecycle),
            (0x1c838, self.fragment_admission),
            (0x1ca28, self.cycle),
            (0x10211, self.fragment_work_stamp),
            (0x10420, self.fragment_work_stamp),
            (0x14048, self.completion_control),
            (0x14080, self.fragment_status | 1),
            (0x01731, 1),
            (0x01731, 1),
        ];
        assert(out@ =~= self.fragment_writes());
        Some(out)
    }

    /// The bytes that a render needs for its tilemap and its tile pointers: the macrotiles each carry
    /// their own strides, layer by layer, in whole pages.
    pub fn scratch_sizes(&self) -> (out: Option<(u64, u64)>)
        ensures
            if self.is_valid() {
                let g = self.geometry_of();
                out is Some && (out->0).0 == ceil_div(g.size1 * 64 * self.layers, 0x4000) * 0x4000
                    && (out->0).1 == ceil_div(g.size3 * 64 * self.layers, 0x4000) * 0x4000
            } else {
                out is None
            },
    {
        if !self.valid() {
            return None;
        }
        proof {
            self.lemma_geometry();
        }
        let g: Geometry = self.geometry();
        let layers: u64 = self.layers;
        assert(g.size1 * 64 * layers <= 81920 * 64 * 2048) by (nonlinear_arith)
            requires
                g.size1 <= 81920,
                layers <= 2048,
        ;
        assert(g.size3 * 64 * layers <= 131072 * 64 * 2048) by (nonlinear_arith)
            requires
                g.size3 <= 131072,
                layers <= 2048,
        ;
        let tilemap: u64 = (g.size1 * 64 * layers + 0x3fff) / 0x4000 * 0x4000;
        let tpc: u64 = (g.size3 * 64 * layers + 0x3fff) / 0x4000 * 0x4000;
        Some((tilemap, tpc))
    }
}

/// The fields of a register table: each write takes twelve bytes, the number before the value.
pub open spec fn register_fields(records: Seq<(u32, u64)>) -> Seq<Field> {
    Seq::new(
        2 * records.len(),
        |k: int|
            if k % 2 == 0 {
                w32((12 * (k / 2)) as usize, records[k / 2].0)
            } else {
                w64((12 * (k / 2) + 4) as usize, records[k / 2].1)
            },
    )
}

/// A register table, unless there are more writes than it holds.
pub fn pack_registers(records: &[(u32, u64)]) -> (out: Option<[u8; 0x600]>)
    ensures
        if records@.len() <= 128 {
            out is Some && (out->0)@ == bytes::image(0x600, register_fields(records@))
        } else {
            out is None
        },
{
    if records.len() > 128 {
        return None;
    }
    let mut fields: Vec<Field> = Vec::new();
    let mut i: usize = 0;
    while i < records.len()
        invariant
            i <= records@.len() <= 128,
            fields@ == register_fields(records@).take(2 * i),
            bytes::all_fit(fields@, 0x600),
        decreases records@.len() - i,
    {
        let record: (u32, u64) = records[i];
        fields.push(w32(12 * i, record.0));
        fields.push(w64(12 * i + 4, record.1));
        i += 1;
        assert(fields@ =~= register_fields(records@).take(2 * i));
    }
    assert(fields@ =~= register_fields(records@));
    Some(encode::<0x600>(&fields))
}

/// Where the parts of a render are, and how it is told apart.
#[derive(Clone, Copy, Debug, PartialEq, Eq, Structural)]
pub struct Addresses {
    pub buffer_manager_block_control: u64,
    pub buffer_manager_block_list: u64,
    pub buffer_manager_counter: u64,
    pub buffer_manager_page_list: u64,
    pub buffer_manager_scene_list: u64,
    pub event_count_array: u64,
    pub fragment_prelude: u64,
    pub pool_slots: u64,
    pub render_shared_state: u64,
    pub tiling_prelude: u64,
    pub empty_buffer: u64,
    pub event_control: u64,
    pub fragment_counter: u64,
    pub fragment_driver_stamp: u64,
    pub fragment_register_alias: u64,
    pub fragment_shared_tail: u64,
    pub tiling_driver_stamp: u64,
    pub tiling_register_alias: u64,
    pub tiling_shared_tail: u64,
    pub timestamp_end: u64,
    pub timestamp_start: u64,
    pub buffer_manager: u64,
    pub buffer_manager_slot: u64,
    pub buffer_thing: u64,
    pub context_id: u64,
    pub fragment_event: u64,
    pub fragment_firmware_stamp: u64,
    pub fragment_microsequence: u64,
    pub fragment_queue: u64,
    pub fragment_stamp: u64,
    pub fragment_stats: u64,
    pub fragment_status_page: u64,
    pub fragment_user_timestamp_end: u64,
    pub fragment_user_timestamp_start: u64,
    pub fragment_uuid: u64,
    pub fragment_work: u64,
    pub support: u64,
    pub tiling_counter: u64,
    pub tiling_event: u64,
    pub tiling_firmware_stamp: u64,
    pub tiling_microsequence: u64,
    pub tiling_queue: u64,
    pub tiling_stamp: u64,
    pub tiling_stats: u64,
    pub tiling_status_page: u64,
    pub tiling_user_timestamp_end: u64,
    pub tiling_user_timestamp_start: u64,
    pub tiling_uuid: u64,
    pub tiling_work: u64,
}

impl Addresses {
    /// All addresses zero.
    pub open spec fn zeroed() -> Addresses {
        Addresses {
            buffer_manager_block_control: 0,
            buffer_manager_block_list: 0,
            buffer_manager_counter: 0,
            buffer_manager_page_list: 0,
            buffer_manager_scene_list: 0,
            event_count_array: 0,
            fragment_prelude: 0,
            pool_slots: 0,
            render_shared_state: 0,
            tiling_prelude: 0,
            empty_buffer: 0,
            event_control: 0,
            fragment_counter: 0,
            fragment_driver_stamp: 0,
            fragment_register_alias: 0,
            fragment_shared_tail: 0,
            tiling_driver_stamp: 0,
            tiling_register_alias: 0,
            tiling_shared_tail: 0,
            timestamp_end: 0,
            timestamp_start: 0,
            buffer_manager: 0,
            buffer_manager_slot: 0,
            buffer_thing: 0,
            context_id: 0,
            fragment_event: 0,
            fragment_firmware_stamp: 0,
            fragment_microsequence: 0,
            fragment_queue: 0,
            fragment_stamp: 0,
            fragment_stats: 0,
            fragment_status_page: 0,
            fragment_user_timestamp_end: 0,
            fragment_user_timestamp_start: 0,
            fragment_uuid: 0,
            fragment_work: 0,
            support: 0,
            tiling_counter: 0,
            tiling_event: 0,
            tiling_firmware_stamp: 0,
            tiling_microsequence: 0,
            tiling_queue: 0,
            tiling_stamp: 0,
            tiling_stats: 0,
            tiling_status_page: 0,
            tiling_user_timestamp_end: 0,
            tiling_user_timestamp_start: 0,
            tiling_uuid: 0,
            tiling_work: 0,
        }
    }
}

impl Default for Addresses {
    fn default() -> (out: Self)
        ensures
            out == Addresses::zeroed(),
    {
        Addresses {
            buffer_manager_block_control: 0,
            buffer_manager_block_list: 0,
            buffer_manager_counter: 0,
            buffer_manager_page_list: 0,
            buffer_manager_scene_list: 0,
            event_count_array: 0,
            fragment_prelude: 0,
            pool_slots: 0,
            render_shared_state: 0,
            tiling_prelude: 0,
            empty_buffer: 0,
            event_control: 0,
            fragment_counter: 0,
            fragment_driver_stamp: 0,
            fragment_register_alias: 0,
            fragment_shared_tail: 0,
            tiling_driver_stamp: 0,
            tiling_register_alias: 0,
            tiling_shared_tail: 0,
            timestamp_end: 0,
            timestamp_start: 0,
            buffer_manager: 0,
            buffer_manager_slot: 0,
            buffer_thing: 0,
            context_id: 0,
            fragment_event: 0,
            fragment_firmware_stamp: 0,
            fragment_microsequence: 0,
            fragment_queue: 0,
            fragment_stamp: 0,
            fragment_stats: 0,
            fragment_status_page: 0,
            fragment_user_timestamp_end: 0,
            fragment_user_timestamp_start: 0,
            fragment_uuid: 0,
            fragment_work: 0,
            support: 0,
            tiling_counter: 0,
            tiling_event: 0,
            tiling_firmware_stamp: 0,
            tiling_microsequence: 0,
            tiling_queue: 0,
            tiling_stamp: 0,
            tiling_stats: 0,
            tiling_status_page: 0,
            tiling_user_timestamp_end: 0,
            tiling_user_timestamp_start: 0,
            tiling_uuid: 0,
            tiling_work: 0,
        }
    }
}

/// A user timestamp block, where one is asked for.
#[verifier::allow_in_spec]
pub fn stamps(start: u64, end: u64, block: u64) -> u64
    returns
        (if start != 0 || end != 0 {
            block
        } else {
            0
        }),
{
    if start != 0 || end != 0 {
        block
    } else {
        0
    }
}

/// A page number with the tag of a valid entry.
#[verifier::allow_in_spec]
pub fn tagged_page(address: u64) -> u64
    returns
        (0x100_0000_0000_0000 + address / 0x100) as u64,
{
    0x100_0000_0000_0000 + address / 0x100
}

impl Addresses {
    /// The fields of the microsequence that tiles a render.
    pub open spec fn tiling_microsequence_fields(self) -> Seq<Field> {
        seq![
            w32(0x0, 5),
            w64(0x14, at(self.tiling_work, 0x40)),
            w64(0x1c, self.buffer_manager),
            w64(0x24, self.buffer_thing),
            w64(0x2c, self.tiling_stats),
            w64(0x34, self.tiling_queue),
            w64(0x3c, at(self.tiling_work, 0x85c)),
            w32(0x44, low32(self.context_id)),
            w32(0x48, low32(self.tiling_counter)),
            w64(0x50, self.buffer_manager_slot),
            w64(0x64, at(self.tiling_work, 0x784)),
            w64(0x6c, at(self.tiling_work, 0x8a8)),
            w32(0x7c, low32(self.tiling_uuid)),
            w64(0x190, self.support),
            w64(0x1a8, self.tiling_status_page),
            w64(0x1b8, 1),
            w32(0x1c0, low32(self.tiling_event)),
            w32(0x1cc, 0x80000003),
            w64(0x1d0, at(self.tiling_work, 0x8c0)),
            w64(0x1d8, at(self.tiling_work, 0x8c8)),
            w64(0x1e0, at(self.tiling_work, 0x8c8)),
            w64(0x1e8, self.tiling_queue),
            w64(0x1f0, stamps(self.tiling_user_timestamp_start, self.tiling_user_timestamp_end, at(self.tiling_work, 0x8d8))),
            w64(0x1f8, at(self.tiling_work, 0x928)),
            w64(0x200, at(self.tiling_work, 0x83c)),
            w32(0x210, low32(self.tiling_uuid)),
            w32(0x218, 1),
            w32(0x21c, 3),
            w64(0x220, at(self.tiling_work, 0x8c0)),
            w64(0x228, at(self.tiling_work, 0x8c8)),
            w64(0x230, at(self.tiling_work, 0x8d0)),
            w64(0x238, self.tiling_queue),
            w64(0x240, stamps(self.tiling_user_timestamp_start, self.tiling_user_timestamp_end, at(self.tiling_work, 0x8d8))),
            w64(0x248, at(self.tiling_work, 0x928)),
            w64(0x250, at(self.tiling_work, 0x83c)),
            w32(0x260, low32(self.tiling_uuid)),
            w32(0x268, 6),
            w64(0x26c, self.buffer_thing),
            w64(0x274, self.buffer_manager),
            w64(0x27c, self.tiling_stats),
            w64(0x284, self.tiling_queue),
            w64(0x28c, at(self.tiling_work, 0x85c)),
            w32(0x294, low32(self.context_id)),
            w64(0x29c, at(self.tiling_work, 0x784)),
            w32(0x2a8, low32(self.tiling_uuid)),
            w64(0x2b0, self.tiling_firmware_stamp),
            w32(0x2b8, low32(self.tiling_stamp)),
            w64(0x2e0, at(self.tiling_microsequence, 0x190)),
            w32(0x2e8, 0xfffffd98),
            w64(0x2ed, at(self.tiling_work, 0x918)),
            w64(0x2f5, 0x200000000000001),
            w32(0x2fc, 0x40000002),
        ]
    }

    /// The microsequence that tiles a render.
    pub fn tiling_microsequence(&self) -> (out: [u8; 0x300])
        requires
            self.tiling_work + 0x928 <= u64::MAX,
            self.tiling_microsequence + 0x190 <= u64::MAX,
        ensures
            out@ == bytes::image(0x300, self.tiling_microsequence_fields()),
    {
        let fields = [
            w32(0x0, 5),
            w64(0x14, at(self.tiling_work, 0x40)),
            w64(0x1c, self.buffer_manager),
            w64(0x24, self.buffer_thing),
            w64(0x2c, self.tiling_stats),
            w64(0x34, self.tiling_queue),
            w64(0x3c, at(self.tiling_work, 0x85c)),
            w32(0x44, low32(self.context_id)),
            w32(0x48, low32(self.tiling_counter)),
            w64(0x50, self.buffer_manager_slot),
            w64(0x64, at(self.tiling_work, 0x784)),
            w64(0x6c, at(self.tiling_work, 0x8a8)),
            w32(0x7c, low32(self.tiling_uuid)),
            w64(0x190, self.support),
            w64(0x1a8, self.tiling_status_page),
            w64(0x1b8, 1),
            w32(0x1c0, low32(self.tiling_event)),
            w32(0x1cc, 0x80000003),
            w64(0x1d0, at(self.tiling_work, 0x8c0)),
            w64(0x1d8, at(self.tiling_work, 0x8c8)),
            w64(0x1e0, at(self.tiling_work, 0x8c8)),
            w64(0x1e8, self.tiling_queue),
            w64(0x1f0, stamps(self.tiling_user_timestamp_start, self.tiling_user_timestamp_end, at(self.tiling_work, 0x8d8))),
            w64(0x1f8, at(self.tiling_work, 0x928)),
            w64(0x200, at(self.tiling_work, 0x83c)),
            w32(0x210, low32(self.tiling_uuid)),
            w32(0x218, 1),
            w32(0x21c, 3),
            w64(0x220, at(self.tiling_work, 0x8c0)),
            w64(0x228, at(self.tiling_work, 0x8c8)),
            w64(0x230, at(self.tiling_work, 0x8d0)),
            w64(0x238, self.tiling_queue),
            w64(0x240, stamps(self.tiling_user_timestamp_start, self.tiling_user_timestamp_end, at(self.tiling_work, 0x8d8))),
            w64(0x248, at(self.tiling_work, 0x928)),
            w64(0x250, at(self.tiling_work, 0x83c)),
            w32(0x260, low32(self.tiling_uuid)),
            w32(0x268, 6),
            w64(0x26c, self.buffer_thing),
            w64(0x274, self.buffer_manager),
            w64(0x27c, self.tiling_stats),
            w64(0x284, self.tiling_queue),
            w64(0x28c, at(self.tiling_work, 0x85c)),
            w32(0x294, low32(self.context_id)),
            w64(0x29c, at(self.tiling_work, 0x784)),
            w32(0x2a8, low32(self.tiling_uuid)),
            w64(0x2b0, self.tiling_firmware_stamp),
            w32(0x2b8, low32(self.tiling_stamp)),
            w64(0x2e0, at(self.tiling_microsequence, 0x190)),
            w32(0x2e8, 0xfffffd98),
            w64(0x2ed, at(self.tiling_work, 0x918)),
            w64(0x2f5, 0x200000000000001),
            w32(0x2fc, 0x40000002),
        ];
        assert(fields@ =~= self.tiling_microsequence_fields());
        encode::<0x300>(&fields)
    }

    /// The fields of the microsequence that shades a render.
    pub open spec fn fragment_microsequence_fields(self) -> Seq<Field> {
        seq![
            w32(0x0, 7),
            w64(0x14, at(self.fragment_work, 0x80)),
            w64(0x1c, self.buffer_thing),
            w64(0x24, self.fragment_stats),
            w64(0x2c, at(self.fragment_work, 0xb70)),
            w64(0x34, at(self.buffer_thing, 0x54)),
            w64(0x3c, at(self.fragment_work, 0xbb0)),
            w64(0x44, at(self.fragment_work, 0xbb4)),
            w64(0x4c, self.fragment_queue),
            w64(0x54, self.fragment_work),
            w32(0x5c, low32(self.context_id)),
            w32(0x60, low32(self.tiling_counter)),
            w64(0x68, self.buffer_manager_slot),
            w64(0x7c, at(self.fragment_work, 0xa58)),
            w64(0x84, at(self.fragment_work, 0xbf0)),
            w32(0xa0, low32(self.fragment_uuid)),
            w64(0x1b0, self.support),
            w64(0x1c8, self.fragment_status_page),
            w32(0x1e0, low32(self.fragment_event)),
            w32(0x1e4, 1),
            w32(0x1ec, 0x80000003),
            w64(0x1f0, at(self.fragment_work, 0xc08)),
            w64(0x1f8, at(self.fragment_work, 0xc10)),
            w64(0x200, at(self.fragment_work, 0xc10)),
            w64(0x208, self.fragment_queue),
            w64(0x210, stamps(self.fragment_user_timestamp_start, self.fragment_user_timestamp_end, at(self.fragment_work, 0xc20))),
            w64(0x218, at(self.fragment_work, 0xc70)),
            w64(0x220, at(self.fragment_work, 0xb84)),
            w32(0x230, low32(self.fragment_uuid)),
            w32(0x238, 1),
            w32(0x23c, 3),
            w64(0x240, at(self.fragment_work, 0xc08)),
            w64(0x248, at(self.fragment_work, 0xc10)),
            w64(0x250, at(self.fragment_work, 0xc18)),
            w64(0x258, self.fragment_queue),
            w64(0x260, stamps(self.fragment_user_timestamp_start, self.fragment_user_timestamp_end, at(self.fragment_work, 0xc20))),
            w64(0x268, at(self.fragment_work, 0xc70)),
            w64(0x270, at(self.fragment_work, 0xb84)),
            w32(0x280, low32(self.fragment_uuid)),
            w32(0x288, 8),
            w32(0x28c, low32(self.fragment_uuid)),
            w64(0x294, self.fragment_firmware_stamp),
            w32(0x29c, low32(self.fragment_stamp)),
            w64(0x2a4, self.buffer_thing),
            w64(0x2ac, self.buffer_manager),
            w64(0x2b4, 1),
            w64(0x2b8, self.fragment_stats),
            w64(0x2c0, at(self.fragment_work, 0xbb0)),
            w64(0x2c8, at(self.fragment_work, 0xbb4)),
            w64(0x2d0, at(self.fragment_work, 0xb70)),
            w64(0x2d8, self.fragment_queue),
            w64(0x2e0, self.fragment_work),
            w32(0x2e8, low32(self.context_id)),
            w64(0x2ec, at(self.fragment_work, 0xa58)),
            w64(0x320, at(self.fragment_microsequence, 0x1b0)),
            w32(0x328, 0xfffffd78),
            w64(0x32d, at(self.fragment_work, 0xc60)),
            w64(0x335, 0x110100000001),
            w32(0x344, 0x40000002),
        ]
    }

    /// The microsequence that shades a render.
    pub fn fragment_microsequence(&self) -> (out: [u8; 0x380])
        requires
            self.fragment_work + 0xc70 <= u64::MAX,
            self.fragment_microsequence + 0x1b0 <= u64::MAX,
            self.buffer_thing + 0x54 <= u64::MAX,
        ensures
            out@ == bytes::image(0x380, self.fragment_microsequence_fields()),
    {
        let fields = [
            w32(0x0, 7),
            w64(0x14, at(self.fragment_work, 0x80)),
            w64(0x1c, self.buffer_thing),
            w64(0x24, self.fragment_stats),
            w64(0x2c, at(self.fragment_work, 0xb70)),
            w64(0x34, at(self.buffer_thing, 0x54)),
            w64(0x3c, at(self.fragment_work, 0xbb0)),
            w64(0x44, at(self.fragment_work, 0xbb4)),
            w64(0x4c, self.fragment_queue),
            w64(0x54, self.fragment_work),
            w32(0x5c, low32(self.context_id)),
            w32(0x60, low32(self.tiling_counter)),
            w64(0x68, self.buffer_manager_slot),
            w64(0x7c, at(self.fragment_work, 0xa58)),
            w64(0x84, at(self.fragment_work, 0xbf0)),
            w32(0xa0, low32(self.fragment_uuid)),
            w64(0x1b0, self.support),
            w64(0x1c8, self.fragment_status_page),
            w32(0x1e0, low32(self.fragment_event)),
            w32(0x1e4, 1),
            w32(0x1ec, 0x80000003),
            w64(0x1f0, at(self.fragment_work, 0xc08)),
            w64(0x1f8, at(self.fragment_work, 0xc10)),
            w64(0x200, at(self.fragment_work, 0xc10)),
            w64(0x208, self.fragment_queue),
            w64(0x210, stamps(self.fragment_user_timestamp_start, self.fragment_user_timestamp_end, at(self.fragment_work, 0xc20))),
            w64(0x218, at(self.fragment_work, 0xc70)),
            w64(0x220, at(self.fragment_work, 0xb84)),
            w32(0x230, low32(self.fragment_uuid)),
            w32(0x238, 1),
            w32(0x23c, 3),
            w64(0x240, at(self.fragment_work, 0xc08)),
            w64(0x248, at(self.fragment_work, 0xc10)),
            w64(0x250, at(self.fragment_work, 0xc18)),
            w64(0x258, self.fragment_queue),
            w64(0x260, stamps(self.fragment_user_timestamp_start, self.fragment_user_timestamp_end, at(self.fragment_work, 0xc20))),
            w64(0x268, at(self.fragment_work, 0xc70)),
            w64(0x270, at(self.fragment_work, 0xb84)),
            w32(0x280, low32(self.fragment_uuid)),
            w32(0x288, 8),
            w32(0x28c, low32(self.fragment_uuid)),
            w64(0x294, self.fragment_firmware_stamp),
            w32(0x29c, low32(self.fragment_stamp)),
            w64(0x2a4, self.buffer_thing),
            w64(0x2ac, self.buffer_manager),
            w64(0x2b4, 1),
            w64(0x2b8, self.fragment_stats),
            w64(0x2c0, at(self.fragment_work, 0xbb0)),
            w64(0x2c8, at(self.fragment_work, 0xbb4)),
            w64(0x2d0, at(self.fragment_work, 0xb70)),
            w64(0x2d8, self.fragment_queue),
            w64(0x2e0, self.fragment_work),
            w32(0x2e8, low32(self.context_id)),
            w64(0x2ec, at(self.fragment_work, 0xa58)),
            w64(0x320, at(self.fragment_microsequence, 0x1b0)),
            w32(0x328, 0xfffffd78),
            w64(0x32d, at(self.fragment_work, 0xc60)),
            w64(0x335, 0x110100000001),
            w32(0x344, 0x40000002),
        ];
        assert(fields@ =~= self.fragment_microsequence_fields());
        encode::<0x380>(&fields)
    }

    /// Whether the pages that entries are tagged with start on a line.
    pub open spec fn is_valid(self) -> bool {
        self.support % 0x100 == 0 && self.tiling_shared_tail % 0x100 == 0
            && self.fragment_shared_tail % 0x100 == 0
    }

    /// Whether the pages that entries are tagged with start on a line.
    pub fn valid(&self) -> (out: bool)
        ensures
            out == self.is_valid(),
    {
        self.support % 0x100 == 0 && self.tiling_shared_tail % 0x100 == 0
            && self.fragment_shared_tail % 0x100 == 0
    }
}

/// A flag as a word.
#[verifier::allow_in_spec]
pub fn flag(set: bool) -> u32
    returns
        (if set {
            1u32
        } else {
            0u32
        }),
{
    if set {
        1
    } else {
        0
    }
}

/// The descriptor word of a render stage, with the flag of a layered render.
#[verifier::allow_in_spec]
pub fn stage_word(word: u64, layers: u64) -> u64
    requires
        word < 0x100_0000,
    returns
        (if layers > 1 {
            (word + 0x4000_0000_0000_0000) as u64
        } else {
            word
        }),
{
    if layers > 1 {
        word + 0x4000_0000_0000_0000
    } else {
        word
    }
}

/// The low word of an address, moved to the high half.
#[verifier::allow_in_spec]
pub fn compact(address: u64) -> u64
    returns
        (address % 0x1_0000_0000 * 0x1_0000_0000) as u64,
{
    address % 0x1_0000_0000 * 0x1_0000_0000
}

/// A value, or a default where it is zero.
#[verifier::allow_in_spec]
pub fn or_default(value: u64, default: u32) -> u32
    returns
        (if value != 0 {
            low32(value)
        } else {
            default
        }),
{
    if value != 0 {
        low32(value)
    } else {
        default
    }
}

/// The extended number of samplers, which counts one more than there are.
#[verifier::allow_in_spec]
pub fn extended(count: u64) -> u32
    requires
        count < 0xffff_ffff,
    returns
        (if count == 0 {
            0
        } else {
            (count + 1) as u32
        }),
{
    if count == 0 {
        0
    } else {
        (count + 1) as u32
    }
}

impl Parameters {
    /// The fields of the tiling work around its register table.
    pub open spec fn tiling_work_fields(self, a: Addresses) -> Seq<Field> {
        let g = self.geometry_of();
        seq![
            w32(0, 0),
            w64(0x4, a.tiling_counter),
            w32(0xc, low32(a.context_id)),
            w64(0x10, a.event_control),
            w64(0x18, a.buffer_manager_slot),
            w64(0x20, a.buffer_manager),
            w64(0x28, a.buffer_thing),
            w64(0x30, a.empty_buffer),
            w64(0x740, a.tiling_register_alias),
            w16(0x748, 0x41),
            w16(0x74a, 0x30c),
            w64(0x760, self.tpc),
            w64(0x768, (g.size3 * 64 * self.layers) as u64),
            w64(0x770, a.tiling_microsequence),
            w32(0x778, 0x300),
            w32(0x77c, 0x11),
            w32(0x780, low32(a.fragment_stamp)),
            w64(0x7a8, (self.deflake_1 - self.context_base) as u64),
            w8(0x864, flag(self.request_tvb_growth) as u8),
            w64(0x840, high32(self.tiling_lifecycle) as u64),
            w32(0x848, 0xffff_ffff),
            w64(0x84c, self.sampler_array),
            w32(0x854, low32(self.sampler_count)),
            w32(0x858, extended(self.sampler_count)),
            w64(0x878, a.tiling_driver_stamp),
            w64(0x880, a.tiling_firmware_stamp),
            w32(0x888, low32(a.tiling_stamp)),
            w32(0x88c, low32(a.tiling_event)),
            w32(0x898, low32(a.tiling_uuid)),
            w64(0x8a0, (self.layers - 1) as u64),
            w64(0x8c8, a.timestamp_start),
            w64(0x8d8, a.tiling_user_timestamp_start),
            w64(0x8e0, a.tiling_user_timestamp_end),
            w64(0x8ff, tagged_page(a.support)),
            w64(0x908, stage_word(0xdaa0, self.layers)),
            w64(0x910, tagged_page(a.tiling_shared_tail)),
        ]
    }

    /// The tiling work of a render, unless its parameters or addresses are invalid.
    pub fn tiling_work(&self, a: &Addresses) -> (out: Option<[u8; 0x940]>)
        ensures
            if self.is_valid() && a.is_valid() {
                out is Some && (out->0)@ == bytes::overlay(
                    bytes::place(
                        bytes::zeros(0x940),
                        0x40,
                        bytes::image(0x600, register_fields(self.tiling_writes())),
                    ),
                    self.tiling_work_fields(*a),
                )
            } else {
                out is None
            },
    {
        if !self.valid() || !a.valid() {
            return None;
        }
        proof {
            self.lemma_geometry();
        }
        let writes = match self.tiling_registers() {
            Some(writes) => writes,
            None => {
                return None;
            },
        };
        let registers: [u8; 0x600] = match pack_registers(&writes) {
            Some(registers) => registers,
            None => {
                return None;
            },
        };
        let g: Geometry = self.geometry();
        let layers: u64 = self.layers;
        assert(g.size3 * 64 * layers <= 131072 * 64 * 2048) by (nonlinear_arith)
            requires
                g.size3 <= 131072,
                layers <= 2048,
        ;
        let tpc_size: u64 = g.size3 * 64 * layers;
        let mut out: [u8; 0x940] = [0u8; 0x940];
        assert(out@ =~= bytes::zeros(0x940));
        copy_in(&mut out, 0x40, &registers);
        let fields = [
            w32(0, 0),
            w64(0x4, a.tiling_counter),
            w32(0xc, low32(a.context_id)),
            w64(0x10, a.event_control),
            w64(0x18, a.buffer_manager_slot),
            w64(0x20, a.buffer_manager),
            w64(0x28, a.buffer_thing),
            w64(0x30, a.empty_buffer),
            w64(0x740, a.tiling_register_alias),
            w16(0x748, 0x41),
            w16(0x74a, 0x30c),
            w64(0x760, self.tpc),
            w64(0x768, tpc_size),
            w64(0x770, a.tiling_microsequence),
            w32(0x778, 0x300),
            w32(0x77c, 0x11),
            w32(0x780, low32(a.fragment_stamp)),
            w64(0x7a8, self.ta_offset(self.deflake_1)),
            w8(0x864, flag(self.request_tvb_growth) as u8),
            w64(0x840, high32(self.tiling_lifecycle) as u64),
            w32(0x848, 0xffff_ffff),
            w64(0x84c, self.sampler_array),
            w32(0x854, low32(self.sampler_count)),
            w32(0x858, extended(self.sampler_count)),
            w64(0x878, a.tiling_driver_stamp),
            w64(0x880, a.tiling_firmware_stamp),
            w32(0x888, low32(a.tiling_stamp)),
            w32(0x88c, low32(a.tiling_event)),
            w32(0x898, low32(a.tiling_uuid)),
            w64(0x8a0, self.layers - 1),
            w64(0x8c8, a.timestamp_start),
            w64(0x8d8, a.tiling_user_timestamp_start),
            w64(0x8e0, a.tiling_user_timestamp_end),
            w64(0x8ff, tagged_page(a.support)),
            w64(0x908, stage_word(0xdaa0, self.layers)),
            w64(0x910, tagged_page(a.tiling_shared_tail)),
        ];
        assert(fields@ =~= self.tiling_work_fields(*a));
        fill(&mut out, &fields);
        Some(out)
    }

    /// The fields of the fragment work around its register table.
    pub open spec fn fragment_work_fields(self, a: Addresses, ratio_x: u32, ratio_y: u32) -> Seq<Field> {
        let g = self.geometry_of();
        seq![
            w32(0, 0x1),
            w64(4, a.fragment_counter),
            w32(0xc, low32(a.context_id)),
            w32(0x10, 0x0),
            w64(0x14, a.fragment_microsequence),
            w32(0x1c, 0x380),
            w64(0x20, a.event_control),
            w64(0x28, a.buffer_manager),
            w64(0x30, a.buffer_thing),
            w64(0x38, a.empty_buffer),
            w64(0x40, self.tilemap),
            w64(0x48, self.multisample_control),
            w32(0x50, low32(self.samples)),
            w32(0x54, low32(g.macro_size)),
            w32(0x68, or_default(self.merge_upper_x_bits, ratio_x)),
            w32(0x6c, or_default(self.merge_upper_y_bits, ratio_y)),
            w64(0x78, (g.tiles_x * g.tiles_y) as u64),
            w64(0x680, 0x8c020001dddc00),
            w64(0x688, 0xa0001de1800),
            w64(0x690, 0x8c020200029800),
            w64(0x698, 0x220200039520),
            w64(0x780, a.fragment_register_alias),
            w16(0x788, 0x51),
            w16(0x78a, 0x3cc),
            w64(0x7a0, self.depth_bias_array),
            w64(0x7b0, self.scissor_array),
            w64(0x7c0, self.occlusion_query_base),
            w64(0x8f8, self.load_pipeline_bind),
            w64(0x900, self.load_pipeline),
            w64(0x928, self.partial_load_pipeline_bind),
            w64(0x930, self.partial_load_pipeline),
            w64(0x938, self.depth_flags),
            w32(0x940, 0x4040404),
            w64(0x948, self.depth_buffer),
            w64(0x950, self.depth_stride),
            w64(0x958, self.depth_aux_stride),
            w64(0x960, self.depth_buffer),
            w64(0x968, self.depth_buffer),
            w64(0x970, self.depth_aux_buffer),
            w64(0x978, self.stencil_buffer),
            w64(0x980, self.stencil_stride),
            w64(0x988, self.stencil_aux_stride),
            w64(0x990, self.stencil_buffer),
            w64(0x998, self.stencil_buffer),
            w64(0x9a0, self.stencil_aux_buffer),
            w32(0x9b8, low32(self.tib_of())),
            w64(0x9c0, self.aux_fb_flags),
            w64(0x9c8, (self.height * 0x1_0000_0000 + self.width) as u64),
            w64(0x9d0, self.aux_fb_page_count),
            w64(0x9d8, self.tile_config),
            w32(0x9f4, low32(self.store_pipeline_bind)),
            w64(0x9f8, compact(self.store_pipeline)),
            w64(0x9fc, self.store_pipeline),
            w32(0xa14, low32(self.partial_store_pipeline_bind)),
            w64(0xa18, compact(self.partial_store_pipeline)),
            w64(0xa1c, self.partial_store_pipeline),
            w32(0xa28, low32(self.depth_clear_value_bits)),
            w32(0xa2c, (low32(self.stencil_clear_value % 0x100) + 0x300) as u32),
            w64(0xa30, self.sample_size),
            w64(0xa50, self.depth_dimensions),
            w32(0xb80, flag(self.fragment_sync_grow)),
            w64(0xb88, high32(self.fragment_lifecycle) as u64),
            w32(0xb90, 0xffffffff),
            w64(0xb94, self.sampler_array),
            w32(0xb9c, low32(self.sampler_count)),
            w32(0xba0, extended(self.sampler_count)),
            w32(0xba4, flag(self.process_empty_tiles)),
            w32(0xba8, 0x1),
            w32(0xbac, flag(self.samples > 1)),
            w64(0xbc0, a.fragment_driver_stamp),
            w64(0xbc8, a.fragment_firmware_stamp),
            w32(0xbd0, low32(a.fragment_stamp)),
            w32(0xbd4, low32(a.fragment_event)),
            w32(0xbe0, low32(a.fragment_uuid)),
            w64(0xbe8, (self.layers - 1) as u64),
            w64(0xc10, a.timestamp_start),
            w64(0xc18, a.timestamp_end),
            w64(0xc20, a.fragment_user_timestamp_start),
            w64(0xc28, a.fragment_user_timestamp_end),
            w64(0xc47, tagged_page(a.support)),
            w64(0xc50, stage_word(0x113a0, self.layers)),
            w64(0xc58, tagged_page(a.fragment_shared_tail)),
            w64(0xc80, 0x100000000),
        ]
    }

    /// The fragment work of a render, unless its parameters or addresses are invalid. Where the render
    /// gives no tile merge bound of its own, it takes the bit pattern of the one that its size implies.
    pub fn fragment_work(&self, a: &Addresses, ratio_x: u32, ratio_y: u32) -> (out: Option<[u8; 0xcc0]>)
        ensures
            if self.is_valid() && a.is_valid() {
                out is Some && (out->0)@ == bytes::overlay(
                    bytes::place(
                        bytes::zeros(0xcc0),
                        0x80,
                        bytes::image(0x600, register_fields(self.fragment_writes())),
                    ),
                    self.fragment_work_fields(*a, ratio_x, ratio_y),
                )
            } else {
                out is None
            },
    {
        if !self.valid() || !a.valid() {
            return None;
        }
        proof {
            self.lemma_geometry();
        }
        let writes = match self.fragment_registers() {
            Some(writes) => writes,
            None => {
                return None;
            },
        };
        let registers: [u8; 0x600] = match pack_registers(&writes) {
            Some(registers) => registers,
            None => {
                return None;
            },
        };
        let g: Geometry = self.geometry();
        assert(g.tiles_x * g.tiles_y <= 512 * 512) by (nonlinear_arith)
            requires
                g.tiles_x <= 512,
                g.tiles_y <= 512,
        ;
        let tiles: u64 = g.tiles_x * g.tiles_y;
        let mut out: [u8; 0xcc0] = [0u8; 0xcc0];
        assert(out@ =~= bytes::zeros(0xcc0));
        copy_in(&mut out, 0x80, &registers);
        let fields = [
            w32(0, 0x1),
            w64(4, a.fragment_counter),
            w32(0xc, low32(a.context_id)),
            w32(0x10, 0x0),
            w64(0x14, a.fragment_microsequence),
            w32(0x1c, 0x380),
            w64(0x20, a.event_control),
            w64(0x28, a.buffer_manager),
            w64(0x30, a.buffer_thing),
            w64(0x38, a.empty_buffer),
            w64(0x40, self.tilemap),
            w64(0x48, self.multisample_control),
            w32(0x50, low32(self.samples)),
            w32(0x54, low32(g.macro_size)),
            w32(0x68, or_default(self.merge_upper_x_bits, ratio_x)),
            w32(0x6c, or_default(self.merge_upper_y_bits, ratio_y)),
            w64(0x78, tiles),
            w64(0x680, 0x8c020001dddc00),
            w64(0x688, 0xa0001de1800),
            w64(0x690, 0x8c020200029800),
            w64(0x698, 0x220200039520),
            w64(0x780, a.fragment_register_alias),
            w16(0x788, 0x51),
            w16(0x78a, 0x3cc),
            w64(0x7a0, self.depth_bias_array),
            w64(0x7b0, self.scissor_array),
            w64(0x7c0, self.occlusion_query_base),
            w64(0x8f8, self.load_pipeline_bind),
            w64(0x900, self.load_pipeline),
            w64(0x928, self.partial_load_pipeline_bind),
            w64(0x930, self.partial_load_pipeline),
            w64(0x938, self.depth_flags),
            w32(0x940, 0x4040404),
            w64(0x948, self.depth_buffer),
            w64(0x950, self.depth_stride),
            w64(0x958, self.depth_aux_stride),
            w64(0x960, self.depth_buffer),
            w64(0x968, self.depth_buffer),
            w64(0x970, self.depth_aux_buffer),
            w64(0x978, self.stencil_buffer),
            w64(0x980, self.stencil_stride),
            w64(0x988, self.stencil_aux_stride),
            w64(0x990, self.stencil_buffer),
            w64(0x998, self.stencil_buffer),
            w64(0x9a0, self.stencil_aux_buffer),
            w32(0x9b8, low32(self.tib_encoding())),
            w64(0x9c0, self.aux_fb_flags),
            w64(0x9c8, self.height * 0x1_0000_0000 + self.width),
            w64(0x9d0, self.aux_fb_page_count),
            w64(0x9d8, self.tile_config),
            w32(0x9f4, low32(self.store_pipeline_bind)),
            w64(0x9f8, compact(self.store_pipeline)),
            w64(0x9fc, self.store_pipeline),
            w32(0xa14, low32(self.partial_store_pipeline_bind)),
            w64(0xa18, compact(self.partial_store_pipeline)),
            w64(0xa1c, self.partial_store_pipeline),
            w32(0xa28, low32(self.depth_clear_value_bits)),
            w32(0xa2c, low32(self.stencil_clear_value % 0x100) + 0x300),
            w64(0xa30, self.sample_size),
            w64(0xa50, self.depth_dimensions),
            w32(0xb80, flag(self.fragment_sync_grow)),
            w64(0xb88, high32(self.fragment_lifecycle) as u64),
            w32(0xb90, 0xffffffff),
            w64(0xb94, self.sampler_array),
            w32(0xb9c, low32(self.sampler_count)),
            w32(0xba0, extended(self.sampler_count)),
            w32(0xba4, flag(self.process_empty_tiles)),
            w32(0xba8, 0x1),
            w32(0xbac, flag(self.samples > 1)),
            w64(0xbc0, a.fragment_driver_stamp),
            w64(0xbc8, a.fragment_firmware_stamp),
            w32(0xbd0, low32(a.fragment_stamp)),
            w32(0xbd4, low32(a.fragment_event)),
            w32(0xbe0, low32(a.fragment_uuid)),
            w64(0xbe8, self.layers - 1),
            w64(0xc10, a.timestamp_start),
            w64(0xc18, a.timestamp_end),
            w64(0xc20, a.fragment_user_timestamp_start),
            w64(0xc28, a.fragment_user_timestamp_end),
            w64(0xc47, tagged_page(a.support)),
            w64(0xc50, stage_word(0x113a0, self.layers)),
            w64(0xc58, tagged_page(a.fragment_shared_tail)),
            w64(0xc80, 0x100000000),
        ];
        assert(fields@ =~= self.fragment_work_fields(*a, ratio_x, ratio_y));
        fill(&mut out, &fields);
        Some(out)
    }
}

} // verus!
