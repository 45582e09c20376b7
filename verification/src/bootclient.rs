//! The low addresses that the device and the opening client have when the firmware starts.
use crate::bootmap;
use crate::bytes;
use crate::bytes::{fill, w64, Field};
use crate::compute::{private_ranges, BUFFER_BASE, BUFFER_SIZE, BUFFER_STRIDE, DIRECTORY, DIRECTORY_SIZE, MARKER, SCRATCH};
use crate::error::Error;
use crate::fw::{operand_page, OPERAND_TABLE};
use crate::fwshare;
use crate::fwspace::FirmwareSpace;
use crate::operands;
use crate::plan;
use crate::plan::{push_write, Stored, Write};
use crate::platform::zeroed;
use crate::prot;
use crate::prot::prot_gpu_shared_ro;
use crate::ranges;
use crate::render::Addresses;
use crate::space;
use crate::space::AddressSpace;
use crate::tables;
use crate::tables::TableMemory;
use crate::walk;
use vstd::prelude::*;

verus! {

/// First address of the directory of operand pages.
pub const OPERAND_DIRECTORY: u64 = 0x70_0000_0000;

/// Number of operand buffers of the opening client.
pub const OPERAND_BUFFERS: usize = 20;

/// The ranges that back the work of the device: address and size.
pub open spec fn device_backing() -> Seq<(u64, u64)> {
    seq![
        (0x70_0000_0000u64, 0x8c000u64),
        (0x70_0009_0000, 0xc0000),
        (0x70_0015_8000, 0x94000),
        (0x70_001f_0000, 0x84000),
    ]
}

/// The ranges that back the work of the device, which the accelerator reads.
pub fn device_ranges() -> (out: [(u64, u64); 4])
    ensures
        out@ == device_backing(),
{
    let out: [(u64, u64); 4] = [
        (0x70_0000_0000, 0x8c000),
        (0x70_0009_0000, 0xc0000),
        (0x70_0015_8000, 0x94000),
        (0x70_001f_0000, 0x84000),
    ];
    assert(out@ =~= device_backing());
    out
}

/// The pages of the firmware that the device shows at other addresses: the address, and the firmware's
/// page behind it.
pub fn shared_pages() -> (out: [(u64, u64); 2])
    ensures
        out@ == seq![
            (0x70_0027_8000u64, 0xffff_fc20_0012_8000u64),
            (0x70_0028_0000, 0xffff_fc20_0013_0000),
        ],
        bootmap::covered(out@[0].1 as int, 0x4000),
        bootmap::covered(out@[1].1 as int, 0x4000),
{
    let out: [(u64, u64); 2] = [
        (0x70_0027_8000, 0xffff_fc20_0012_8000),
        (0x70_0028_0000, 0xffff_fc20_0013_0000),
    ];
    assert(out@ =~= seq![
        (0x70_0027_8000u64, 0xffff_fc20_0012_8000u64),
        (0x70_0028_0000, 0xffff_fc20_0013_0000),
    ]);
    assert(bootmap::row_covers(9, out@[0].1 as int, 0x4000));
    assert(bootmap::row_covers(10, out@[1].1 as int, 0x4000));
    out
}

/// The register windows of the first render, which the device shows instead of what backed its work: the
/// page of the window, and the firmware's page behind it.
pub fn window_pages() -> (out: [(u64, u64); 2])
    ensures
        ({
            let a = Addresses::initial();
            out@ == seq![
                (operands::page_start(a.tiling_register_alias), operands::page_start(a.tiling_work)),
                (
                    operands::page_start(a.fragment_register_alias),
                    operands::page_start(a.fragment_work),
                ),
            ]
        }),
        bootmap::covered(out@[0].1 as int, 0x4000),
        bootmap::covered(out@[1].1 as int, 0x4000),
{
    let a: Addresses = Addresses::bootstrap();
    let out: [(u64, u64); 2] = [
        (a.tiling_register_alias / 0x4000 * 0x4000, a.tiling_work / 0x4000 * 0x4000),
        (a.fragment_register_alias / 0x4000 * 0x4000, a.fragment_work / 0x4000 * 0x4000),
    ];
    assert(out@ =~= seq![
        (operands::page_start(a.tiling_register_alias), operands::page_start(a.tiling_work)),
        (operands::page_start(a.fragment_register_alias), operands::page_start(a.fragment_work)),
    ]);
    assert(bootmap::row_covers(28, out@[0].1 as int, 0x4000));
    assert(bootmap::row_covers(29, out@[1].1 as int, 0x4000));
    out
}

/// All pages of the firmware that the device shows: the shared pages, then the windows.
pub open spec fn device_pages() -> Seq<(u64, u64)> {
    let a = Addresses::initial();
    seq![
        (0x70_0027_8000u64, 0xffff_fc20_0012_8000u64),
        (0x70_0028_0000, 0xffff_fc20_0013_0000),
        (operands::page_start(a.tiling_register_alias), operands::page_start(a.tiling_work)),
        (operands::page_start(a.fragment_register_alias), operands::page_start(a.fragment_work)),
    ]
}

/// Whether a page backs the work of the device, or shows a page of the firmware.
pub open spec fn of_device(page: int) -> bool {
    ||| exists|i: int| 0 <= i < 4 && ranges::in_range(#[trigger] device_backing()[i], page)
    ||| exists|k: int| 0 <= k < 4 && (#[trigger] device_pages()[k]).0 as int / 0x4000 == page
}

/// A page of which nothing is made when the device is opened has the entry it had.
proof fn lemma_not_of_device(firmware: FirmwareSpace, mem: TableMemory, frames: Seq<u64>, shown: int, page: int, before: u64)
    requires
        0 <= shown <= 4,
        !of_device(page),
    ensures
        device_entry(firmware, mem, frames, shown, page, before) == before,
{
    assert forall|i: int| 0 <= i < 4 implies !ranges::in_range(#[trigger] device_backing()[i], page) by {}
    ranges::lemma_outside(device_backing(), 4, frames, prot_gpu_shared_ro(), page, before);
    lemma_none_shown(firmware, mem, shown, page, before);
}

proof fn lemma_none_shown(firmware: FirmwareSpace, mem: TableMemory, n: int, page: int, before: u64)
    requires
        n <= 4,
        !of_device(page),
    ensures
        fwshare::shown_entry(firmware, mem, device_pages(), n, page, before) == before,
    decreases n,
{
    if n > 0 {
        assert(device_pages()[n - 1].0 as int / 0x4000 != page);
        lemma_none_shown(firmware, mem, n - 1, page, before);
    }
}

/// The entry of a page of the device when it is opened.
pub open spec fn device_entry(
    firmware: FirmwareSpace,
    mem: TableMemory,
    frames: Seq<u64>,
    shown: int,
    page: int,
    before: u64,
) -> u64 {
    fwshare::shown_entry(
        firmware,
        mem,
        device_pages(),
        shown,
        page,
        ranges::backed_entry(device_backing(), 4, frames, prot_gpu_shared_ro(), page, before),
    )
}

/// Whether the work of the device is backed and the first `n` pages of the firmware are shown, each of
/// which has a frame behind it.
pub open spec fn device_shown(
    before: AddressSpace,
    firmware: FirmwareSpace,
    m0: TableMemory,
    frames: Seq<u64>,
    device: AddressSpace,
    mem: TableMemory,
    n: int,
) -> bool {
    &&& 0 <= n <= 4
    &&& forall|q: int|
        tables::in_tree(q) ==> #[trigger] device.entry(mem, q) == device_entry(
            firmware,
            m0,
            frames,
            n,
            q,
            before.entry(m0, q),
        )
    &&& forall|k: int|
        0 <= k < n ==> fwshare::frame_behind(firmware, m0, (#[trigger] device_pages()[k]).1) is Some
}

/// Opens the device before its root is published: backs its work, then shows it pages of the firmware, the
/// windows in place of what backed them. Whoever fails part of the way discards the space.
#[verifier::rlimit(40)]
pub fn open_device(
    device: &mut AddressSpace,
    firmware: &mut FirmwareSpace,
    mem: &mut TableMemory,
    frames: &mut Vec<u64>,
) -> (out: Result<(), Error>)
    requires
        old(device).wf(*old(mem)),
        old(firmware).wf(*old(mem)),
        fwshare::beside(*old(device), *old(firmware), *old(mem)),
        space::frames_ok(old(frames)@),
    ensures
        final(device).wf(*final(mem)),
        final(firmware).wf(*final(mem)),
        fwshare::beside(*final(device), *final(firmware), *final(mem)),
        final(device).same_roots(*old(device)),
        walk::framed(old(device).low.tree(*old(mem)), final(device).low.tree(*final(mem))),
        final(firmware).same_but_walked(*old(firmware)),
        final(firmware).table.tree(*final(mem)).same_values(old(firmware).table.tree(*old(mem))),
        match out {
            Ok(_) => {
                &&& old(frames)@.len() >= DEVICE_FRAMES
                &&& final(mem).free@.len() + 2 * DEVICE_FRAMES + 8 >= old(mem).free@.len()
                &&& final(frames)@ == old(frames)@.take(old(frames)@.len() - DEVICE_FRAMES)
                &&& final(device).pages@ == ranges::backed_pages(
                    old(device).pages@,
                    device_backing(),
                    4,
                    old(frames)@,
                )
                &&& device_shown(
                    *old(device),
                    *old(firmware),
                    *old(mem),
                    old(frames)@,
                    *final(device),
                    *final(mem),
                    4,
                )
                &&& old(device).list_fault(
                    *old(mem),
                    old(frames)@,
                    device_backing(),
                    0,
                    prot_gpu_shared_ro(),
                ) is None
            },
            Err(e) => {
                let fault = old(device).list_fault(
                    *old(mem),
                    old(frames)@,
                    device_backing(),
                    0,
                    prot_gpu_shared_ro(),
                );
                &&& {
                    ||| {
                        &&& fault == Some(e) || e == Error::ENOMEM && old(mem).free@.len() < 2
                            * DEVICE_FRAMES
                        &&& exists|n: int, k: int| #[trigger]
                            AddressSpace::stopped(
                                *old(device),
                                *old(mem),
                                old(frames)@,
                                *final(device),
                                *final(mem),
                                final(frames)@,
                                device_backing(),
                                n,
                                k,
                                prot_gpu_shared_ro(),
                            )
                    }
                    ||| {
                        &&& fault is None
                        &&& final(frames)@ == old(frames)@.take(old(frames)@.len() - DEVICE_FRAMES)
                        &&& final(device).pages@ == ranges::backed_pages(
                            old(device).pages@,
                            device_backing(),
                            4,
                            old(frames)@,
                        )
                        &&& exists|k: int|
                            {
                                &&& #[trigger] device_shown(
                                    *old(device),
                                    *old(firmware),
                                    *old(mem),
                                    old(frames)@,
                                    *final(device),
                                    *final(mem),
                                    k,
                                )
                                &&& k < 4
                                &&& if fwshare::frame_behind(
                                    *old(firmware),
                                    *old(mem),
                                    device_pages()[k].1,
                                ) is None {
                                    e == Error::EINVAL
                                } else {
                                    e == Error::ENOMEM && old(mem).free@.len() < 2 * DEVICE_FRAMES + 8
                                }
                            }
                    }
                }
                &&& forall|q: int|
                    tables::in_tree(q) && !of_device(q) ==> #[trigger] final(device).entry(
                        *final(mem),
                        q,
                    ) == old(device).entry(*old(mem), q)
            },
        },
{
    let ghost d0 = *device;
    let ghost w0 = *firmware;
    let ghost m0 = *mem;
    let ghost f0 = frames@;
    let mut backing: Vec<(u64, u64)> = Vec::new();
    let list: [(u64, u64); 4] = device_ranges();
    let mut i: usize = 0;
    while i < 4
        invariant
            i <= 4,
            list@ == device_backing(),
            backing@ == device_backing().take(i as int),
        decreases 4 - i,
    {
        backing.push(list[i]);
        i += 1;
        assert(backing@ =~= device_backing().take(i as int));
    }
    proof {
        assert(backing@ =~= device_backing());
        lemma_device_frames();
    }
    match device.alloc_ranges(mem, frames, &backing, prot_gpu_shared_ro()) {
        Err(e) => {
            proof {
                fwshare::lemma_firmware_beside(d0, m0, *device, *mem, *firmware);
                let (n, k) = choose|n: int, k: int| #[trigger]
                    AddressSpace::stopped(
                        d0,
                        m0,
                        f0,
                        *device,
                        *mem,
                        frames@,
                        backing@,
                        n,
                        k,
                        prot_gpu_shared_ro(),
                    );
                assert(AddressSpace::stopped(
                    d0,
                    m0,
                    f0,
                    *device,
                    *mem,
                    frames@,
                    device_backing(),
                    n,
                    k,
                    prot_gpu_shared_ro(),
                ));
                assert forall|q: int|
                    tables::in_tree(q) && !of_device(q) implies #[trigger] device.entry(*mem, q)
                    == d0.entry(m0, q) by {
                    assert forall|i: int| 0 <= i < 4 implies !ranges::in_range(
                        #[trigger] backing@[i],
                        q,
                    ) by {
                        assert(backing@[i] == device_backing()[i]);
                    }
                }
            }
            return Err(e);
        },
        Ok(()) => {},
    }
    let ghost d1 = *device;
    let ghost m1 = *mem;
    proof {
        fwshare::lemma_firmware_beside(d0, m0, d1, m1, w0);
    }
    let shared: [(u64, u64); 2] = shared_pages();
    let windows: [(u64, u64); 2] = window_pages();
    let mut pages: Vec<(u64, u64)> = Vec::new();
    pages.push(shared[0]);
    pages.push(shared[1]);
    pages.push(windows[0]);
    pages.push(windows[1]);
    proof {
        assert(pages@ =~= device_pages());
        assert(fwshare::pages_ok(pages@));
    }
    let out = fwshare::show_pages(device, firmware, mem, &pages);
    proof {
        let k = choose|k: int|
            {
                &&& 0 <= k <= 4
                &&& #[trigger] fwshare::shown_upto(d1, w0, m1, *device, *mem, device_pages(), k)
                &&& match out {
                    Ok(_) => k == 4,
                    Err(e) => {
                        &&& k < 4
                        &&& if fwshare::frame_behind(w0, m1, device_pages()[k].1) is None {
                            e == Error::EINVAL
                        } else {
                            e == Error::ENOMEM && m1.free@.len() < 2 * (k + 1)
                        }
                    },
                }
            };
        walk::lemma_framed_trans(d0.low.tree(m0), d1.low.tree(m1), device.low.tree(*mem));
        assert forall|j: int| 0 <= j < 4 implies fwshare::frame_behind(
            w0,
            m1,
            (#[trigger] device_pages()[j]).1,
        ) == fwshare::frame_behind(w0, m0, device_pages()[j].1) by {
            fwshare::lemma_same_frames(w0, m0, w0, m1, device_pages()[j].1);
        }
        assert forall|q: int| tables::in_tree(q) implies #[trigger] firmware.table.tree(*mem).value(q)
            == w0.table.tree(m0).value(q) by {
            assert(w0.table.tree(m1).value(q) == w0.table.tree(m0).value(q));
        }
        assert forall|q: int| tables::in_tree(q) implies #[trigger] device.entry(*mem, q)
            == device_entry(w0, m0, f0, k, q, d0.entry(m0, q)) by {
            assert(d1.entry(m1, q) == ranges::backed_entry(
                device_backing(),
                4,
                f0,
                prot_gpu_shared_ro(),
                q,
                d0.entry(m0, q),
            ));
            fwshare::lemma_same_shown(w0, m0, w0, m1, device_pages(), k, q, d1.entry(m1, q));
        }
        assert(device_shown(d0, w0, m0, f0, *device, *mem, k));
        assert forall|q: int| tables::in_tree(q) && !of_device(q) implies #[trigger] device.entry(*mem, q)
            == d0.entry(m0, q) by {
            assert(device.entry(*mem, q) == device_entry(w0, m0, f0, k, q, d0.entry(m0, q)));
            lemma_not_of_device(w0, m0, f0, k, q, d0.entry(m0, q));
        }
    }
    out
}

/// Number of frames behind the work of the device.
pub const DEVICE_FRAMES: u64 = 0x99;

/// The ranges of the device have that many pages.
proof fn lemma_device_frames()
    ensures
        ranges::pages_before(device_backing(), 1) <= DEVICE_FRAMES,
        ranges::pages_before(device_backing(), 2) <= DEVICE_FRAMES,
        ranges::pages_before(device_backing(), 3) <= DEVICE_FRAMES,
        ranges::pages_before(device_backing(), 4) == DEVICE_FRAMES,
{
    reveal_with_fuel(ranges::pages_before, 5);
}

/// Once the map is reserved, the pages that the device shows have frames behind them, where no entry of the
/// loader stands in the way.
pub proof fn lemma_device_pages_mapped(firmware: FirmwareSpace, mem: TableMemory, k: int)
    requires
        firmware.wf(mem),
        forall|i: int|
            0 <= i < bootmap::REGIONS ==> firmware.shows(mem, #[trigger] bootmap::region(i)),
        0 <= k < 4,
        !firmware.table.tree(mem).blocked(FirmwareSpace::page_of(device_pages()[k].1 as int)),
    ensures
        fwshare::frame_behind(firmware, mem, device_pages()[k].1) is Some,
{
    let high = device_pages()[k].1;
    let i: int = if k == 0 {
        9
    } else if k == 1 {
        10
    } else if k == 2 {
        28
    } else {
        29
    };
    let region = bootmap::region(i);
    assert(bootmap::row_covers(i, high as int, 0x4000));
    let at = choose|at: int| #[trigger] firmware.shows_at(mem, at, region);
    assert(firmware.shows_at(mem, at, region));
    let page = FirmwareSpace::page_of(high as int);
    let first = FirmwareSpace::page_of(region.address as int);
    assert(first <= page < first + firmware.regions@[at].pages@.len());
    assert(firmware.table.first_page(high) == page);
    let frame = firmware.regions@[at].pages@[page - first];
    let rights = prot::pte_of(region.prot);
    assert((frame | (rights | 3)) & 3 == 3) by (bit_vector);
    assert(firmware.entry(mem, page) == (frame | FirmwareSpace::bits(region.prot)));
}

/// The windows lie where the device's work was backed, at the same distance from its start as the work
/// has from the start of its region.
pub proof fn lemma_windows_alias()
    ensures
        ({
            let a = Addresses::initial();
            &&& operands::page_start(a.tiling_register_alias) - 0x70_0000_0000 == operands::page_start(
                a.tiling_work,
            ) - bootmap::row(28).0
            &&& operands::page_start(a.fragment_register_alias) - 0x70_0009_0000
                == operands::page_start(a.fragment_work) - bootmap::row(29).0
            &&& operands::page_start(a.tiling_register_alias) + 0x4000 <= 0x70_0000_0000 + 0x8c000
            &&& operands::page_start(a.fragment_register_alias) + 0x4000 <= 0x70_0009_0000 + 0xc0000
        }),
{
}

/// The address of an operand page.
pub open spec fn operand_address(index: int) -> int {
    0x70_0042_0000 + (index / 512) * 0x208000 + (index % 512) * 0x1000
}

/// A range that the opening client gets.
pub open spec fn opening_range(i: int) -> (u64, u64) {
    if i == 0 {
        (OPERAND_DIRECTORY, 0x40_0000)
    } else if i == 1 {
        (OPERAND_TABLE, 0x10000)
    } else if i < 22 {
        (operand_address((i - 2) * 512) as u64, 0x20_0000)
    } else if i == 22 {
        (DIRECTORY, DIRECTORY_SIZE as u64)
    } else if i == 23 {
        (SCRATCH, 0x20000)
    } else if i == 24 {
        (MARKER, 0x4000)
    } else {
        ((BUFFER_BASE + (i - 25) * BUFFER_STRIDE) as u64, BUFFER_SIZE as u64)
    }
}

/// The ranges that the opening client gets: the directory of operand pages, the table of operands, the
/// operand buffers, and the private ranges of computes.
pub fn opening_ranges() -> (out: Vec<(u64, u64)>)
    ensures
        out@ == Seq::new(41, |i: int| opening_range(i)),
{
    let mut out: Vec<(u64, u64)> = Vec::new();
    out.push((OPERAND_DIRECTORY, 0x40_0000));
    out.push((OPERAND_TABLE, 0x10000));
    assert(out@ =~= Seq::new(2, |i: int| opening_range(i)));
    let mut index: usize = 0;
    while index < OPERAND_BUFFERS
        invariant
            index <= OPERAND_BUFFERS,
            out@ == Seq::new((2 + index) as nat, |i: int| opening_range(i)),
        decreases OPERAND_BUFFERS - index,
    {
        assert((index * 512) as int / 512 == index && (index * 512) as int % 512 == 0);
        let base: u64 = operand_page(index * 512);
        out.push((base, 0x20_0000));
        index += 1;
        assert(out@ =~= Seq::new((2 + index) as nat, |i: int| opening_range(i)));
    }
    let ranges: [(u64, usize); 19] = private_ranges();
    let mut n: usize = 0;
    while n < 19
        invariant
            n <= 19,
            ranges@[0] == (DIRECTORY, DIRECTORY_SIZE),
            ranges@[1] == (SCRATCH, 0x20000usize),
            ranges@[2] == (MARKER, 0x4000usize),
            forall|i: int|
                3 <= i < 19 ==> #[trigger] ranges@[i] == (
                    (BUFFER_BASE + (i - 3) * BUFFER_STRIDE) as u64,
                    BUFFER_SIZE,
                ),
            out@ == Seq::new((22 + n) as nat, |i: int| opening_range(i)),
        decreases 19 - n,
    {
        let (base, size): (u64, usize) = ranges[n];
        out.push((base, size as u64));
        n += 1;
        assert(out@ =~= Seq::new((22 + n) as nat, |i: int| opening_range(i)));
    }
    out
}

/// The fields of a row of a directory whose entries are pages that follow each other.
pub open spec fn page_row(first: int) -> Seq<Field> {
    Seq::new(32, |i: int| w64((8 * i) as usize, (first + i * 0x1000) as u64))
}

/// The first rows of the directory of operand pages.
pub open spec fn operand_rows(n: nat) -> Seq<Stored> {
    Seq::new(
        n,
        |r: int|
            (
                (OPERAND_DIRECTORY + r * 256) as u64,
                bytes::image(256, page_row(operand_address(r * 32))),
                false,
            ),
    )
}

/// The first rows of the directory of compute buffers.
pub open spec fn buffer_rows(n: nat) -> Seq<Stored> {
    Seq::new(
        n,
        |r: int|
            (
                (DIRECTORY + r * 256) as u64,
                bytes::image(
                    256,
                    page_row(BUFFER_BASE + (r / 16) * BUFFER_STRIDE + (r % 16) * 0x20000),
                ),
                false,
            ),
    )
}

/// A row of a directory.
fn row(first: u64) -> (out: Vec<u8>)
    requires
        first + 0x20000 <= u64::MAX,
    ensures
        out@ == bytes::image(256, page_row(first as int)),
{
    let mut fields: Vec<Field> = Vec::new();
    let mut i: usize = 0;
    while i < 32
        invariant
            i <= 32,
            first + 0x20000 <= u64::MAX,
            fields@ == page_row(first as int).take(i as int),
        decreases 32 - i,
    {
        fields.push(w64(8 * i, first + i as u64 * 0x1000));
        i += 1;
        assert(fields@ =~= page_row(first as int).take(i as int));
    }
    assert(fields@ =~= page_row(first as int));
    let mut out: Vec<u8> = zeroed(256);
    fill(out.as_mut_slice(), fields.as_slice());
    out
}

/// Plans the two directories of the opening client.
pub fn opening_rows() -> (out: Vec<Write>)
    ensures
        plan::stored(out@) == operand_rows(320) + buffer_rows(256),
{
    let mut writes: Vec<Write> = Vec::new();
    assert(plan::stored(writes@) =~= operand_rows(0));
    let mut r: usize = 0;
    while r < 320
        invariant
            r <= 320,
            plan::stored(writes@) == operand_rows(r as nat),
        decreases 320 - r,
    {
        let line: Vec<u8> = row(operand_page(r * 32));
        push_write(&mut writes, OPERAND_DIRECTORY + r as u64 * 256, line.as_slice(), false);
        r += 1;
        assert(plan::stored(writes@) =~= operand_rows(r as nat));
    }
    assert(plan::stored(writes@) =~= operand_rows(320) + buffer_rows(0));
    let mut b: u64 = 0;
    while b < 256
        invariant
            b <= 256,
            plan::stored(writes@) == operand_rows(320) + buffer_rows(b as nat),
        decreases 256 - b,
    {
        let line: Vec<u8> = row(BUFFER_BASE + (b / 16) * BUFFER_STRIDE + (b % 16) * 0x20000);
        push_write(&mut writes, DIRECTORY + b * 256, line.as_slice(), false);
        b += 1;
        assert(plan::stored(writes@) =~= operand_rows(320) + buffer_rows(b as nat));
    }
    writes
}

/// Every entry of the directory of operand pages names a page of an operand buffer.
pub proof fn lemma_operand_entries(r: int, i: int)
    requires
        0 <= r < 320,
        0 <= i < 32,
    ensures
        ({
            let page = operand_address(r * 32) + i * 0x1000;
            let buffer = opening_range(2 + (r * 32 + i) / 512);
            &&& page == operand_address(r * 32 + i)
            &&& buffer.0 <= page
            &&& page + 0x1000 <= buffer.0 + buffer.1
        }),
{
    let index = r * 32 + i;
    assert(index / 512 == (r * 32) / 512);
    assert(((index / 512) * 512) / 512 == index / 512 && ((index / 512) * 512) % 512 == 0);
}

/// Every entry of the directory of compute buffers names a page of a compute buffer, and the rows fill
/// the directory.
pub proof fn lemma_buffer_entries(r: int, i: int)
    requires
        0 <= r < 256,
        0 <= i < 32,
    ensures
        ({
            let page = BUFFER_BASE + (r / 16) * BUFFER_STRIDE + (r % 16) * 0x20000 + i * 0x1000;
            let buffer = opening_range(25 + r / 16);
            &&& buffer.0 <= page
            &&& page + 0x1000 <= buffer.0 + buffer.1
            &&& DIRECTORY <= DIRECTORY + r * 256
            &&& r * 256 + 256 <= DIRECTORY_SIZE
        }),
{
}

/// The ranges of the opening client are whole pages, and no two of them meet.
pub proof fn lemma_opening_ranges_apart(i: int, j: int)
    requires
        0 <= i < j < 41,
    ensures
        opening_range(i).0 % 0x4000 == 0,
        opening_range(i).1 % 0x4000 == 0,
        opening_range(j).0 % 0x4000 == 0,
        opening_range(j).1 % 0x4000 == 0,
        opening_range(i).0 + opening_range(i).1 <= opening_range(j).0 || opening_range(j).0
            + opening_range(j).1 <= opening_range(i).0,
{
    if 2 <= i < 22 {
        assert(((i - 2) * 512) / 512 == i - 2 && ((i - 2) * 512) % 512 == 0);
    }
    if 2 <= j < 22 {
        assert(((j - 2) * 512) / 512 == j - 2 && ((j - 2) * 512) % 512 == 0);
    }
}

} // verus!
