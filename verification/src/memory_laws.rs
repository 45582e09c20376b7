//! What holds of mappings, of the storage behind them, and of what is stored there at the start.
use crate::boot;
use crate::bootclient;
use crate::bootmap;
use crate::bytes;
use crate::client_stamps;
use crate::error::Error;
use crate::fw;
use crate::fwspace::{FirmwareRegion, FirmwareSpace};
use crate::fwspace_io;
use crate::mapping;
use crate::mapping::{Extent, Mapping, Segment};
use crate::mem;
use crate::object_laws;
use crate::pgtable::UatPageTable;
use crate::platform::Register;
use crate::pools;
use crate::prot;
use crate::prot::Prot;
use crate::publish_laws;
use crate::render;
use crate::space;
use crate::space::AddressSpace;
use crate::space_alloc;
use crate::space_share;
use crate::tables;
use crate::tables::TableMemory;
use crate::walk;
use crate::walk::Edit;
use crate::works;
use vstd::prelude::*;

verus! {

/// The bits of an entry: the attributes of memory in bits 2 to 4, the permission in bits 6 and 7, the mark of an
/// accessed page, and twelve high bits.
pub proof fn lemma_entry_bits(p: Prot)
    requires
        p.fits(),
    ensures
        prot::pte_of(p) == p.memattr * 4 + p.ap * 64 + 0x400 + p.high_bits * 0x10_0000_0000_0000,
{
    let a = p.ap;
    let h = p.high_bits;
    let m = p.memattr;
    assert(((a as u64) << 6) | ((h as u64) << 52) | ((m as u64) << 2) | 0x400 == m * 4 + a * 64 + 0x400 + h
        * 0x10_0000_0000_0000) by (bit_vector)
        requires
            a <= 3,
            m <= 7,
            h <= 0xfff,
    ;
}

/// What a core dump says of pages of the GPU: they are never executed. Where the firmware has access too, the first
/// never-execute bit lets the GPU write and the second lets it read; where the firmware alone has permission, the
/// first bit lets the GPU read and write, and without it the lack of the second lets it read.
pub proof fn lemma_gpu_access(ap: u8, uxn: bool, pxn: bool)
    ensures
        ({
            let access = prot::access_of(true, ap, uxn, pxn);
            let reads = (ap == 0 && pxn) || (ap == 1 && (uxn || !pxn));
            let writes = ap <= 1 && uxn;
            access == (if reads {
                4int
            } else {
                0
            }) + (if writes {
                2int
            } else {
                0
            })
        }),
{
}

/// What a core dump says of pages of the firmware.
pub proof fn lemma_firmware_access(ap: u8, uxn: bool, pxn: bool)
    ensures
        ({
            let access = prot::access_of(false, ap, uxn, pxn);
            let executes = (ap == 2 && !uxn) || (ap == 3 && !uxn && !pxn);
            let writes = (ap == 0 && uxn && pxn) || (ap == 1 && pxn) || (ap == 3 && !uxn && pxn);
            let reads = executes || writes || ((ap == 2 || ap == 3) && uxn && pxn);
            access == (if reads {
                4int
            } else {
                0
            }) + (if writes {
                2int
            } else {
                0
            }) + (if executes {
                1int
            } else {
                0
            })
        }),
{
}

/// A page that is mapped gets its own frame, the frames following each other, or all pages the same one.
pub proof fn lemma_installed(phys: u64, bits: u64, k: nat, entry: u64)
    requires
        phys + k * 0x4000 <= u64::MAX,
    ensures
        walk::edited(Edit::Install { phys, bits, one_page: false }, k, entry) == ((phys + k * 0x4000) as u64) | bits,
        walk::edited(Edit::Install { phys, bits, one_page: true }, k, entry) == phys | bits,
        walk::edited(Edit::Clear, k, entry) == 0,
        walk::edited(Edit::Keep, k, entry) == entry,
{
}

/// New rights leave a page that is not mapped alone.
pub proof fn lemma_protect_invalid(bits: u64, k: nat, entry: u64)
    requires
        !tables::is_valid(entry),
    ensures
        walk::edited(Edit::Protect { bits }, k, entry) == entry,
{
}

/// Mappings of a root that belongs to one address space are marked as not global; others are not.
pub proof fn lemma_type_bits(table: UatPageTable)
    ensures
        table.type_bits() % 4 == 3,
        table.ttb_owned ==> table.type_bits() == 3 + 0x800,
        !table.ttb_owned ==> table.type_bits() == 3,
{
}

/// The first pages behind an address get the last frames of a pool, in order, and no other page changes.
pub proof fn lemma_pages_with(pages: Map<u64, u64>, va: int, frames: Seq<u64>, k: int, i: int, other: u64)
    requires
        0 <= i < k <= frames.len(),
        0 <= va,
        va + k * 0x4000 <= u64::MAX,
        other < va || va + k * 0x4000 <= other || (other - va) % 0x4000 != 0,
    ensures
        ({
            let all = space::pages_with(pages, va, frames, k);
            &&& all.contains_key((va + i * 0x4000) as u64)
            &&& all[(va + i * 0x4000) as u64] == frames[frames.len() - 1 - i]
            &&& all.contains_key(other) <==> pages.contains_key(other)
            &&& all.contains_key(other) ==> all[other] == pages[other]
        }),
    decreases k,
{
    if i < k - 1 {
        lemma_pages_with(pages, va, frames, k - 1, i, other);
    } else if k > 1 {
        lemma_pages_with(pages, va, frames, k - 1, 0, other);
    } else {
        assert(space::pages_with(pages, va, frames, 0) == pages);
    }
    assert((va + (k - 1) * 0x4000) as u64 != other);
}

/// A page can be taken exactly when it is not owned, lies inside the space, and is not mapped.
pub proof fn lemma_page_taken(s: AddressSpace, mem: TableMemory, v: int)
    ensures
        s.conflict(mem, v) is None <==> {
            &&& !s.pages@.contains_key(v as u64)
            &&& v + 0x4000 <= 0x400_0000_0000
            &&& s.entry(mem, v / 0x4000) & 3 != 3
        },
        s.conflict(mem, v) is Some ==> (s.conflict(mem, v)->0 == Error::EINVAL <==> !s.pages@.contains_key(v as u64)
            && v + 0x4000 > 0x400_0000_0000),
{
}

/// Pages can be taken exactly when each of them can.
pub proof fn lemma_pages_taken(s: AddressSpace, mem: TableMemory, va: int, k: int, n: int)
    requires
        0 <= k,
    ensures
        s.first_conflict(mem, va, k, n) is None <==> forall|i: int|
            k <= i < n ==> s.conflict(mem, #[trigger] (va + i * 0x4000)) is None,
    decreases n - k,
{
    if k < n {
        lemma_pages_taken(s, mem, va, k + 1, n);
        assert(s.conflict(mem, va + k * 0x4000) is None || s.conflict(mem, va + k * 0x4000) is Some);
    }
}

/// A page of the firmware can be mapped exactly when it lies in the firmware's half and is not mapped.
pub proof fn lemma_firmware_page_taken(s: FirmwareSpace, mem: TableMemory, v: int)
    ensures
        s.conflict(mem, v) is None <==> {
            &&& crate::fwspace::FIRMWARE_START <= v
            &&& v + 0x4000 <= crate::fwspace::FIRMWARE_END
            &&& s.entry(mem, FirmwareSpace::page_of(v)) & 3 != 3
        },
        s.conflict(mem, v) == Some(Error::EEXIST) ==> s.entry(mem, FirmwareSpace::page_of(v)) & 3 == 3,
{
}

/// The private storage of a render: its parts follow each other, tilemap, tile pointers, and pages for metadata, for
/// state to restart from, for both status blocks and for the auxiliary buffer; layers move the metadata of the heap.
pub proof fn lemma_scratch_placed(p: render::Parameters, base: int, tilemap: int, tpc: int)
    requires
        0 <= base,
        0 <= tilemap,
        0 <= tpc,
        base + tilemap + tpc + 0x1_4000 <= u64::MAX,
    ensures
        ({
            let q = AddressSpace::scratch_placed(p, base, tilemap, tpc);
            &&& q.tilemap == base
            &&& q.tpc == q.tilemap + tilemap
            &&& q.layermeta == q.tpc + tpc
            &&& q.heapmeta == q.layermeta + (if p.layers > 1 {
                0x100int
            } else {
                0
            })
            &&& q.deflake_3 == q.layermeta + 0x4000
            &&& q.deflake_2 == q.deflake_3 + 0x20
            &&& q.deflake_1 == q.deflake_2 + 0x280
            &&& q.ta_status == q.layermeta + 0x8240
            &&& q.fragment_status == q.layermeta + 0xc2c0
            &&& q.aux_fb == q.layermeta + 0x1_0000
            &&& q == (render::Parameters {
                tilemap: q.tilemap,
                tpc: q.tpc,
                layermeta: q.layermeta,
                heapmeta: q.heapmeta,
                deflake_1: q.deflake_1,
                deflake_2: q.deflake_2,
                deflake_3: q.deflake_3,
                ta_status: q.ta_status,
                fragment_status: q.fragment_status,
                aux_fb: q.aux_fb,
                ..p
            })
        }),
{
}

/// A page of an extent shows the frame at its distance from the start, or the one frame of the extent.
pub proof fn lemma_extent_entry(extent: Extent, access: Prot, single: bool, page: int)
    requires
        AddressSpace::extent_ok(extent, single),
        AddressSpace::in_extent(extent, page),
    ensures
        ({
            let frame = if single {
                extent.physical as int
            } else {
                extent.physical + (page * 0x4000 - extent.start)
            };
            AddressSpace::extent_entry(extent, access, single, page) == (frame as u64) | (prot::pte_of(access)
                | 0x803)
        }),
{
    assert(extent.start as int / 0x4000 * 0x4000 == extent.start);
}

/// Extents are all mapped: a page of one of them that no later one holds gets its entry, and a page of none keeps
/// its own.
pub proof fn lemma_extents_installed(
    extents: Seq<Extent>,
    access: Prot,
    single: bool,
    n: int,
    k: int,
    page: int,
    before: u64,
)
    requires
        0 <= k < n <= extents.len(),
    ensures
        AddressSpace::in_extent(extents[k], page) && (forall|j: int|
            k < j < n ==> !AddressSpace::in_extent(#[trigger] extents[j], page))
            ==> AddressSpace::installed_entry(extents, access, single, n, page, before)
            == AddressSpace::extent_entry(extents[k], access, single, page),
        (forall|j: int| 0 <= j < n ==> !AddressSpace::in_extent(#[trigger] extents[j], page))
            ==> AddressSpace::installed_entry(extents, access, single, n, page, before) == before,
    decreases n,
{
    if n > 1 {
        if k < n - 1 {
            lemma_extents_installed(extents, access, single, n - 1, k, page, before);
        } else {
            lemma_extents_installed(extents, access, single, n - 1, n - 2, page, before);
        }
    } else {
        assert(AddressSpace::installed_entry(extents, access, single, 0, page, before) == before);
    }
}

/// A page that is shared with a client shows the frame of the device; it is shared exactly when the client has
/// nothing there and the device has something.
pub proof fn lemma_shared_page(client: u64, device: u64)
    ensures
        space_share::share_conflict(client, device) is None <==> client & 3 != 3 && device & 3 == 3,
        client & 3 == 3 ==> space_share::share_conflict(client, device) == Some(Error::EEXIST),
        space_share::shared_page(device) == tables::frame_of(device, 0x3ff_ffff_ffff) | (prot::pte_of(
            prot::prot_gpu_shared_rw(),
        ) | 0x803),
{
}

/// The frames behind new blocks and their pages: eight to a block, blocks ten pages apart.
pub proof fn lemma_block_pages(base: int, count: int, k: int)
    requires
        0 <= base,
        base % 0x4000 == 0,
        0 <= k < 8 * count,
    ensures
        space_alloc::block_frame(base, count, space_alloc::block_page(base, k) / 0x4000) == Some(k),
        space_alloc::block_page(base, k) == base + 0x2_8000 * (k / 8) + 0x4000 * (k % 8),
{
    let page = space_alloc::block_page(base, k);
    assert(page / 0x4000 - base / 0x4000 == 10 * (k / 8) + k % 8);
    let d = 10 * (k / 8) + k % 8;
    assert(d / 10 == k / 8 && d % 10 == k % 8);
}

/// A page that is not among the first eight of a block has no frame.
pub proof fn lemma_block_gaps(base: int, count: int, page: int)
    ensures
        space_alloc::block_frame(base, count, page) is Some <==> 0 <= page - base / 0x4000 < 10 * count && (page
            - base / 0x4000) % 10 < 8,
{
}

/// A mapping of a single page shows the page at its offset over the whole range: one extent.
pub proof fn lemma_single_extent(segments: Seq<Segment>, i: int, offset: int, va: int, end: int)
    requires
        0 <= i,
        0 <= offset,
        0 <= va < end <= u64::MAX,
        mapping::extents_of(segments, i, offset, va, end, true) is Some,
    ensures
        ({
            let list = mapping::extents_of(segments, i, offset, va, end, true)->0;
            &&& list.len() == 1
            &&& list[0].start == va
            &&& list[0].end == end
            &&& mapping::byte_address(segments, i, offset) == Some(list[0].physical as int)
        }),
    decreases segments.len() - i,
{
    if i < segments.len() && offset >= segments[i].length {
        lemma_single_extent(segments, i + 1, offset - segments[i].length, va, end);
    }
}

/// Extents follow each other from the start of a mapping to its end, in whole pages.
pub proof fn lemma_extents_follow(segments: Seq<Segment>, i: int, offset: int, va: int, end: int, k: int)
    requires
        0 <= i,
        0 <= offset,
        0 <= va < end <= u64::MAX,
        end % 0x4000 == 0,
        mapping::extents_of(segments, i, offset, va, end, false) is Some,
        0 <= k < mapping::extents_of(segments, i, offset, va, end, false)->0.len(),
    ensures
        ({
            let list = mapping::extents_of(segments, i, offset, va, end, false)->0;
            &&& list[0].start == va
            &&& list.last().end == end
            &&& list[k].start % 0x4000 == 0 && list[k].physical % 0x4000 == 0
            &&& k + 1 < list.len() ==> list[k].end == list[k + 1].start
        }),
    decreases segments.len() - i,
{
    if i < segments.len() {
        let length = segments[i].length;
        if offset >= length {
            lemma_extents_follow(segments, i + 1, offset - length, va, end, k);
        } else {
            let list = mapping::extents_of(segments, i, offset, va, end, false)->0;
            let left = length - offset;
            let stop = if left < end - va {
                va + left
            } else {
                end
            };
            if stop < end {
                let rest = mapping::extents_of(segments, i + 1, 0, stop, end, false)->0;
                assert(list =~= seq![list[0]] + rest);
                lemma_not_empty(segments, i + 1, 0, stop, end);
                lemma_extents_follow(segments, i + 1, 0, stop, end, 0);
                if k > 0 {
                    lemma_extents_follow(segments, i + 1, 0, stop, end, k - 1);
                    assert(list[k] == rest[k - 1]);
                }
                assert(list[1] == rest[0]);
                assert(list.last() == rest.last());
            }
        }
    }
}

proof fn lemma_not_empty(segments: Seq<Segment>, i: int, offset: int, va: int, end: int)
    requires
        0 <= i,
        mapping::extents_of(segments, i, offset, va, end, false) is Some,
    ensures
        mapping::extents_of(segments, i, offset, va, end, false)->0.len() > 0,
    decreases segments.len() - i,
{
    if i < segments.len() && offset >= segments[i].length {
        lemma_not_empty(segments, i + 1, offset - segments[i].length, va, end);
    }
}

/// A mapping of one page keeps showing that page when it is cut.
pub proof fn lemma_single_parts(m: Mapping, start: int, end: int, i: int)
    requires
        m.wf(),
        m.single,
        0 <= start < end <= u64::MAX,
        0 <= i < mapping::parts_of(m, start, end).len(),
    ensures
        ({
            let part = mapping::parts_of(m, start, end)[i];
            &&& part.offset == m.offset
            &&& part.object == m.object
            &&& part.permissions == m.permissions
            &&& part.single
            &&& m.start <= part.start < part.end <= m.end
            &&& part.end <= start || end <= part.start
        }),
{
}

/// A cut keeps the permissions and the buffer of each part, and each part lies outside of the cut.
pub proof fn lemma_parts_keep(m: Mapping, start: int, end: int, i: int)
    requires
        m.wf(),
        0 <= start < end <= u64::MAX,
        0 <= i < mapping::parts_of(m, start, end).len(),
    ensures
        ({
            let part = mapping::parts_of(m, start, end)[i];
            &&& part.object == m.object
            &&& part.permissions == m.permissions
            &&& part.single == m.single
            &&& m.start <= part.start < part.end <= m.end
            &&& part.end <= start || end <= part.start
        }),
{
}

/// The buffers that lose pages are those of the mappings that meet the range.
pub proof fn lemma_retired(mappings: Seq<Mapping>, start: int, end: int, n: int, object: u64)
    requires
        0 <= n <= mappings.len(),
    ensures
        mapping::retired_of(mappings, start, end, n).contains(object) <==> exists|i: int|
            0 <= i < n && (#[trigger] mappings[i]).object == object && start < mappings[i].end && mappings[i].start
                < end,
    decreases n,
{
    let all = mapping::retired_of(mappings, start, end, n);
    if n > 0 {
        lemma_retired(mappings, start, end, n - 1, object);
        let before = mapping::retired_of(mappings, start, end, n - 1);
        let m = mappings[n - 1];
        if m.meets(start, end) {
            assert(all == before.push(m.object));
            assert(all[before.len() as int] == m.object);
            if before.contains(object) {
                let j = choose|j: int| 0 <= j < before.len() && before[j] == object;
                assert(all[j] == object);
            }
            if all.contains(object) && !before.contains(object) {
                let j = choose|j: int| 0 <= j < all.len() && all[j] == object;
                if j < before.len() {
                    assert(before[j] == object);
                }
                assert(m.object == object);
            }
        }
        if exists|i: int|
            0 <= i < n - 1 && (#[trigger] mappings[i]).object == object && start < mappings[i].end
                && mappings[i].start < end {
            let i = choose|i: int|
                0 <= i < n - 1 && (#[trigger] mappings[i]).object == object && start < mappings[i].end
                    && mappings[i].start < end;
            assert(mappings[i].object == object);
        }
    }
}

/// The extents of a range of timestamps show the buffer byte by byte.
pub proof fn lemma_stamp_extents(segments: Seq<Segment>, i: int, offset: int, va: int, end: int, x: int)
    requires
        0 <= i,
        0 <= offset,
        0 <= va <= x < end <= u64::MAX,
        forall|k: int|
            0 <= k < segments.len() ==> (#[trigger] segments[k]).address + segments[k].length <= u64::MAX,
        client_stamps::stamp_extents_of(segments, i, offset, va, end) is Some,
    ensures
        mapping::shown(client_stamps::stamp_extents_of(segments, i, offset, va, end)->0, x) == mapping::byte_address(
            segments,
            i,
            offset + (x - va),
        ),
    decreases segments.len() - i,
{
    if i < segments.len() {
        let length = segments[i].length;
        assert(segments[i].address + length <= u64::MAX);
        if offset >= length {
            lemma_stamp_extents(segments, i + 1, offset - length, va, end, x);
        } else {
            let left = length - offset;
            let stop = if left < end - va {
                va + left
            } else {
                end
            };
            let all = client_stamps::stamp_extents_of(segments, i, offset, va, end)->0;
            if x < stop {
                reveal_with_fuel(mapping::shown, 2);
                assert(all[0].start <= x < all[0].end);
            } else {
                let rest = client_stamps::stamp_extents_of(segments, i + 1, 0, stop, end);
                assert(all =~= seq![all[0]] + rest->0);
                assert(all.drop_first() =~= rest->0);
                lemma_stamp_extents(segments, i + 1, 0, stop, end, x);
            }
        }
    }
}

/// The part of a live write in a page: every byte of the source goes to its own place, nothing before the write or
/// behind it is touched, and lines that the write covers are cleaned, or the whole page where it was dirty.
pub proof fn lemma_live_chunk(region: FirmwareRegion, offset: int, len: int, k: int, i: int)
    requires
        0 <= offset,
        0 < len,
        offset + len <= u64::MAX,
        0 <= k < fwspace_io::touched_pages(offset, len),
        0 <= i < len,
        (offset + i) / 0x4000 == offset / 0x4000 + k,
    ensures
        ({
            let c = fwspace_io::live_chunk(region, offset, len, k);
            let at = (offset + i) % 0x4000;
            &&& c.frame == region.pages@[(offset + i) / 0x4000]
            &&& c.within <= at < c.limit <= 0x4000
            &&& c.from + (at - c.within) == i
            &&& c.clean_from <= at < c.clean_to
            &&& c.invalidate <==> !region.dirty@[(offset + i) / 0x4000]
        }),
{
    let index = offset / 0x4000 + k;
    let base = index * 0x4000;
    assert(offset + i == base + (offset + i) % 0x4000);
}

/// The storage of a work item: what the firmware keeps for itself, and behind it what it shares, without a gap.
pub proof fn lemma_work_regions(va: u64, render: bool)
    requires
        va + 0x1_c000 <= u64::MAX,
    ensures
        ({
            let r = works::work_regions(va as int, render);
            &&& r.len() == 2
            &&& r[0].address == va
            &&& r[1].address == r[0].address + r[0].size
            &&& r[0].size + r[1].size == works::stride(render)
            &&& r[0].size == if render {
                0x1_0000int
            } else {
                0x4000
            }
            &&& r[1].size == if render {
                0xc000int
            } else {
                0x4000
            }
            &&& r[0].prot == prot::prot_fw_priv_rw()
            &&& r[1].prot == prot::prot_fw_shared_rw()
        }),
{
}

/// The regions of a buffer follow each other; only the page of its counter is shared.
pub proof fn lemma_pool_regions(base: u64)
    requires
        base + 0x4_0000 <= u64::MAX,
    ensures
        ({
            let r = pools::pool_regions(base as int);
            &&& r.len() == 3
            &&& r[0].address == base
            &&& r[1].address == r[0].address + r[0].size
            &&& r[2].address == r[1].address + r[1].size
            &&& r[2].address + r[2].size == base + 0x4_0000
            &&& r[1].address == crate::tvb::placed(base as int, 0).buffer_manager_counter
            &&& r[1].size == 0x4000
            &&& r[0].prot == prot::prot_fw_priv_rw()
            &&& r[1].prot == prot::prot_fw_shared_rw()
            &&& r[2].prot == prot::prot_fw_priv_rw()
        }),
{
}

/// The client sees the seven pages of the page list of its buffer, in order.
pub proof fn lemma_pool_pages(base: u64, i: int)
    requires
        base + 0x4_0000 <= u64::MAX,
        0 <= i < 7,
    ensures
        pools::pool_pages(base as int).len() == 7,
        pools::pool_pages(base as int)[i].0 == 0x10_0025_8000 + 0x4000 * i,
        pools::pool_pages(base as int)[i].1 == crate::tvb::placed(base as int, 0).buffer_manager_page_list + 0x4000
            * i,
{
}

/// What is stored for a new buffer: each of its sixteen pages, and behind them its descriptor in the slot.
pub proof fn lemma_pool_stores(base: u64, slot: u64, i: int)
    requires
        base + 0x4_0000 <= u64::MAX,
        slot < 0x1000,
        0 <= i < 16,
    ensures
        ({
            let w = pools::pool_stores(base as int, slot);
            let va = (base + 0x4000 * i) as u64;
            &&& w.len() == 17
            &&& w[i].0 == va
            &&& w[i].1 == bytes::image(0x4000, crate::tvb::placed(base as int, slot).page_fields(va))
            &&& w[16].0 == 0xffff_fc20_0012_8000 + 16 * slot
            &&& w[16].1.len() == 16
            &&& bytes::u32_in(w[16].1, 0) == 0x2_5800
            &&& bytes::u32_in(w[16].1, 4) == 44
        }),
{
    let fields = seq![bytes::w32(0, 0x25800), bytes::w32(4, 44)];
    assert(fields.len() == 2);
    reveal_with_fuel(bytes::held, 4);
    bytes::lemma_held_u32(bytes::zeros(16), fields, 0);
    bytes::lemma_held_u32(bytes::zeros(16), fields, 4);
}

/// The firmware starts from the root descriptor, the bundle and the third region; both status blocks and the version
/// of the support start with one.
#[verifier::rlimit(50)]
pub proof fn lemma_root_stores(bundle: Seq<u8>, region_c: Seq<u8>)
    ensures
        ({
            let w = bootmap::root_stores(bundle, region_c);
            let root = w[0].1;
            &&& w.len() == 6
            &&& root == bytes::image(0xc8, fw::RootPointers::initial().fields())
            &&& w[1].1 == bundle
            &&& w[4].1 == region_c
            &&& w[1].0 == 0xffff_fc20_c04d_8000
            &&& w[2].0 == bytes::u64_in(root, 0xa8) + 4
            &&& w[3].0 == bytes::u64_in(root, 0xb0) + 4
            &&& w[4].0 == bytes::u64_in(root, 0x20)
            &&& bytes::u64_in(root, 0x18) == w[1].0 + 0x1_da40
            &&& bytes::u32_in(w[2].1, 0) == 1
            &&& bytes::u32_in(w[3].1, 0) == 1
            &&& bytes::u32_in(w[5].1, 0) == 1
        }),
{
    let w = bootmap::root_stores(bundle, region_c);
    let r = fw::RootPointers::initial();
    assert(w.len() == 6);
    assert(w[0].1 == bytes::image(0xc8, r.fields()));
    assert(w[2].0 == r.status_a + 4 && w[3].0 == r.status_b + 4 && w[4].0 == r.region_c);
    assert(r.main_config == 0xffff_fc20_c04d_8000 + 0x1_da40);
    publish_laws::lemma_words(1, 0);
    object_laws::lemma_root_regions(r);
}

/// The resume records lie 0x40 bytes apart and all hold the same pattern.
pub proof fn lemma_resume_stores(n: nat, i: int)
    requires
        0 <= i < n <= 96,
    ensures
        bootmap::resume_stores(n).len() == n,
        bootmap::resume_stores(n)[i].0 == 0xffff_fc20_001b_8000 + 0x40 * i,
        bytes::u64_in(bootmap::resume_stores(n)[i].1, 0) == 0x70_0000_1822,
{
    publish_laws::lemma_words(0, 0x0000_0070_0000_1822);
}

/// The opening queue starts with two barriers in a ring of 0x500 slots, and with no jobs but its own list.
#[verifier::rlimit(50)]
pub proof fn lemma_boot_queue()
    ensures
        ({
            let w = bootmap::boot_queue_stores();
            &&& w[0].0 == 0xffff_fc20_0001_50c0
            &&& bytes::u32_in(w[0].1, 0x40) == 2
            &&& bytes::u32_in(w[0].1, 0x50) == 0x500
            &&& w[1].0 == 0xffff_fc20_0000_0030
            &&& bytes::u64_in(w[1].1, 8) == w[1].0
            &&& w[2].0 == 0xffff_fc20_c050_8080
            &&& bytes::u16_in(w[2].1, 0) == 0xffff
            &&& w.len() == 7
            &&& bytes::u64_in(w[3].1, 0) == w[0].0
            &&& bytes::u64_in(w[3].1, 8) == w[5].0
            &&& bytes::u64_in(w[3].1, 0x10) == w[1].0
            &&& bytes::u64_in(w[3].1, 0x18) == w[3].0 + 0xb0
            &&& bytes::u64_in(w[3].1, 0xa4) == w[2].0
            &&& bytes::u64_in(w[5].1, 0) == w[4].0
            &&& w[6].0 == w[5].0 + 8
            &&& bytes::u64_in(w[6].1, 0) == w[4].0
        }),
{
    publish_laws::lemma_words(0, bootmap::BOOT_BARRIER);
    object_laws::lemma_queue(
        crate::queue::Queue {
            pointers: bootmap::BOOT_POINTERS,
            ring: bootmap::BOOT_RING,
            jobs: bootmap::BOOT_JOBS,
            private: (bootmap::BOOT_QUEUE + 0xb0) as u64,
            context: bootmap::BOOT_CONTEXT,
            uuid: 1,
        },
    );
    let cursors = seq![bytes::w32(0x40, 2), bytes::w32(0x50, 0x500)];
    let list = seq![bytes::w64(8, bootmap::BOOT_JOBS)];
    let idle = seq![bytes::w16(0, 0xffff), bytes::w8(5, 1), bytes::w8(0x26, 2), bytes::w8(0x33, 0xff)];
    assert(cursors.len() == 2 && list.len() == 1 && idle.len() == 4);
    reveal_with_fuel(bytes::held, 6);
    bytes::lemma_held_u32(bytes::zeros(0x60), cursors, 0x40);
    bytes::lemma_held_u32(bytes::zeros(0x60), cursors, 0x50);
    bytes::lemma_held_u64(bytes::zeros(0x18), list, 8);
    bytes::lemma_held_u16(bytes::zeros(0x40), idle, 0);
}

/// A window of registers is shown to the firmware in whole pages around it, so that its address and its place agree;
/// the firmware may write it only where its flags say so.
pub proof fn lemma_window_aperture(r: Register, mcc: Seq<u64>)
    requires
        r.slot != 3,
        r.address >= 0x4000,
        r.physical % 0x4000 + r.size + 0x4000 <= u64::MAX,
    ensures
        ({
            let a = bootmap::window_apertures(r, mcc);
            &&& a.len() == 1
            &&& a[0].physical % 0x4000 == 0
            &&& a[0].size % 0x4000 == 0
            &&& a[0].physical <= r.physical < a[0].physical + 0x4000
            &&& r.physical + r.size <= a[0].physical + a[0].size < r.physical + r.size + 0x4000
            &&& r.address - a[0].address == r.physical - a[0].physical
            &&& a[0].prot == if r.flags & 2 != 0 {
                prot::prot_fw_mmio_rw()
            } else {
                prot::prot_fw_mmio_ro()
            }
        }),
{
}

/// Memory controllers are shown one behind the other, wherever they are.
pub proof fn lemma_controller_apertures(r: Register, mcc: Seq<u64>, i: int)
    requires
        r.slot == 3,
        0 <= i < mcc.len(),
        r.address + mcc.len() * r.stride <= u64::MAX,
    ensures
        ({
            let a = bootmap::window_apertures(r, mcc);
            &&& a.len() == mcc.len()
            &&& a[i].physical == mcc[i]
            &&& a[i].address == r.address + i * r.stride
            &&& a[i].size == r.stride
        }),
{
    assert(i * r.stride <= mcc.len() * r.stride) by (nonlinear_arith)
        requires
            0 <= i < mcc.len(),
            0 <= r.stride,
    ;
    assert(0 <= i * r.stride) by (nonlinear_arith)
        requires
            0 <= i,
            0 <= r.stride,
    ;
}

/// The cursors of the work channels are cleared, each in its register: the two of the firmware, then the end.
pub proof fn lemma_cursors_cleared(channel: int)
    requires
        0 <= channel < 12,
    ensures
        ({
            let c = boot::cleared_cursors(36);
            let at = 0x40 * (channel % 3) + 0x10 * (channel / 3);
            &&& c.len() == 36
            &&& c[3 * channel] == ((0xd6_4000 + at) as u64, 0u32)
            &&& c[3 * channel + 1] == ((0xd6_4008 + at) as u64, 0u32)
            &&& c[3 * channel + 2] == ((0xd6_0000 + 0x20 * (channel % 3) + 8 * (channel / 3)) as u64, 0u32)
        }),
{
    object_laws::lemma_submission_channels(fw::BUNDLE_ADDRESS, channel, channel);
    assert((3 * channel) / 3 == channel && (3 * channel + 1) / 3 == channel && (3 * channel + 2) / 3 == channel);
    assert((3 * channel) % 3 == 0 && (3 * channel + 1) % 3 == 1 && (3 * channel + 2) % 3 == 2);
}

/// The entries of a directory row are pages that follow each other.
pub proof fn lemma_page_row(first: u64, i: int)
    requires
        first + 0x2_0000 <= u64::MAX,
        0 <= i < 32,
    ensures
        bytes::u64_in(bytes::image(256, bootclient::page_row(first as int)), 8 * i) == first + 0x1000 * i,
{
    let fields = bootclient::page_row(first as int);
    assert(fields.len() == 32);
    assert(fields[i] == bytes::w64((8 * i) as usize, (first + i * 0x1000) as u64));
    assert forall|j: int| i < j < fields.len() implies fields[i].offset + fields[i].width <= (
    #[trigger] fields[j]).offset by {}
    assert(bytes::survives(fields, i));
    bytes::lemma_reads_back_u64(bytes::zeros(256), fields, i);
}

/// The rows of the directories lie behind each other and start at their pages: those of operand pages, and those of
/// the compute buffers, sixteen to a buffer.
pub proof fn lemma_directory_rows(r: int)
    requires
        0 <= r < 256,
    ensures
        bootclient::operand_rows(320)[r].0 == 0x70_0000_0000 + 256 * r,
        bootclient::operand_rows(320)[r].1 == bytes::image(
            256,
            bootclient::page_row(0x70_0042_0000 + (r / 16) * 0x20_8000 + (r % 16) * 0x2_0000),
        ),
        bootclient::buffer_rows(256)[r].0 == 0x70_02cc_0000 + 256 * r,
        bootclient::buffer_rows(256)[r].1 == bytes::image(
            256,
            bootclient::page_row(0x70_0310_8000 + (r / 16) * 0x20_8000 + (r % 16) * 0x2_0000),
        ),
{
    assert((r * 32) / 512 == r / 16 && ((r * 32) % 512) * 0x1000 == (r % 16) * 0x2_0000);
}

/// A range is invalidated page by page: as many operands as there are pages that it touches, each with the number of
/// its page in units of 4 KiB, and with the address space above it where there is one.
pub proof fn lemma_invalidated(asid: Option<u8>, start: u64, end: u64, i: int)
    requires
        start % 0x4000 == 0,
        start < end < 0x100_0000_0000_0000,
        0 <= i < mem::operands(asid, start as int, end as int).len(),
    ensures
        ({
            let all = mem::operands(asid, start as int, end as int);
            &&& end <= start + 0x4000 * all.len() < end + 0x4000
            &&& all[i] % 0x1_0000_0000_0000 * 0x1000 == start + 0x4000 * i
            &&& asid is Some ==> all[i] / 0x1_0000_0000_0000 == asid->0
            &&& asid is None ==> all[i] / 0x1_0000_0000_0000 == 0
        }),
{
    let va = start + 0x4000 * i;
    assert(va % 0x4000 == 0);
    assert(va < 0x100_0000_0000_0000);
    assert(va / 0x1000 < 0x1000_0000_0000);
    assert((va / 0x1000) % 4 == 0);
    assert(mem::page_operand(va) == va / 0x1000);
}

/// An empty range has nothing to invalidate.
pub proof fn lemma_nothing_invalidated(asid: Option<u8>, start: u64, end: u64)
    requires
        end <= start,
    ensures
        mem::operands(asid, start as int, end as int).len() == 0,
{
}

/// The bytes of tilemap and tile pointers of a render: whole pages, as few as hold 64 bytes for each of its tiles in
/// each layer.
pub proof fn lemma_scratch_sizes(p: render::Parameters)
    ensures
        ({
            let g = p.geometry_of();
            let (tilemap, tpc) = AddressSpace::scratch_of(p);
            &&& tilemap % 0x4000 == 0 && tpc % 0x4000 == 0
            &&& g.size1 * 64 * p.layers <= tilemap < g.size1 * 64 * p.layers + 0x4000
            &&& g.size3 * 64 * p.layers <= tpc < g.size3 * 64 * p.layers + 0x4000
        }),
{
}

/// The device shows four pages of the firmware: two that are shared, and those of the first works at their aliases.
pub proof fn lemma_device_pages()
    ensures
        ({
            let d = bootclient::device_pages();
            &&& d.len() == 4
            &&& d[0].0 == 0x70_0027_8000 && d[0].1 == 0xffff_fc20_0012_8000
            &&& d[1].0 == 0x70_0028_0000 && d[1].1 == 0xffff_fc20_0013_0000
            &&& d[2].0 == 0x70_0004_8000 && d[2].1 == 0xffff_fc20_c006_8000
            &&& d[3].0 == 0x70_0014_0000 && d[3].1 == 0xffff_fc20_c016_0000
        }),
{
}

} // verus!
