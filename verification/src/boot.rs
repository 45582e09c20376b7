//! Starting the firmware: what is checked, in which order it is told what, and what it has to answer.
use crate::bootmap;
use crate::bootmap::{BOOT_QUEUE, REGIONS};
use crate::bytes;
use crate::bytes::{w32, w64, Field};
use crate::error::Error;
use crate::fw;
use crate::fw::{opening_control, opening_flist, MainConfig, BUNDLE_ADDRESS, CONTROL_AUX, CONTROL_DATA};
use crate::plan;
use crate::plan::{push_double, push_word, push_write, Write};
use crate::platform;
use crate::platform::Platform;
use crate::prot::{prot_fw_priv_rw, prot_fw_shared_rw};
use crate::queue;
use crate::queue::channel;
use crate::tvb::Region;
use vstd::prelude::*;

verus! {

/// How often the host looks for an answer, a millisecond apart.
pub const POLLS: u32 = 3000;

/// Start of the range in which the firmware keeps its own memory.
pub const PRIVATE_VM_START: u64 = 0xffff_fc00_0000_0000;

/// Size of the range in which the firmware keeps its own memory.
pub const PRIVATE_VM_SIZE: u64 = 0x20_0000_0000;

/// What the loader says of the firmware, or why it could not be read.
pub struct BootInputs {
    /// The build of the firmware.
    pub firmware: Result<Vec<u8>, Error>,
    /// The range in which the firmware keeps its own memory.
    pub private_vm: Result<Vec<u64>, Error>,
    /// Start and size of the context table, the page tables, the second level, the handoff page and the
    /// firmware.
    pub regions: [Result<(u64, u64), Error>; 5],
}

/// The build of the firmware that is supported, as a terminated string.
pub open spec fn firmware_build() -> Seq<u8> {
    seq![
        0x6du8,
        0x42,
        0x6f,
        0x6f,
        0x74,
        0x2d,
        0x31,
        0x38,
        0x30,
        0x30,
        0x30,
        0x2e,
        0x31,
        0x36,
        0x31,
        0x2e,
        0x31,
        0x30,
        0,
    ]
}

/// Whether a build is the one that is supported.
fn is_supported(build: &Vec<u8>) -> (out: bool)
    ensures
        out == (build@ == firmware_build()),
{
    let wanted: [u8; 19] = [
        0x6d,
        0x42,
        0x6f,
        0x6f,
        0x74,
        0x2d,
        0x31,
        0x38,
        0x30,
        0x30,
        0x30,
        0x2e,
        0x31,
        0x36,
        0x31,
        0x2e,
        0x31,
        0x30,
        0,
    ];
    assert(wanted@ =~= firmware_build());
    if build.len() != 19 {
        return false;
    }
    let mut i: usize = 0;
    while i < 19
        invariant
            i <= 19,
            build@.len() == 19,
            wanted@ == firmware_build(),
            forall|k: int| 0 <= k < i ==> #[trigger] build@[k] == wanted@[k],
        decreases 19 - i,
    {
        if build[i] != wanted[i] {
            assert(build@[i as int] != firmware_build()[i as int]);
            return false;
        }
        i += 1;
    }
    assert(build@ =~= firmware_build());
    true
}

/// Whether a region is made of whole pages and is not at address zero.
pub open spec fn region_ok(region: (u64, u64)) -> bool {
    &&& region.0 != 0
    &&& region.0 + region.1 <= u64::MAX
    &&& region.1 >= 0x4000
    &&& region.0 % 0x4000 == 0
    &&& region.1 % 0x4000 == 0
}

/// Whether two regions share an address.
pub open spec fn regions_meet(a: (u64, u64), b: (u64, u64)) -> bool {
    a.0 < b.0 + b.1 && b.0 < a.0 + a.1
}

/// Why one of the loader's regions is refused, if those before it are in order.
pub open spec fn region_refusal(regions: Seq<Result<(u64, u64), Error>>, i: int) -> Option<Error> {
    match regions[i] {
        Err(e) => Some(e),
        Ok(region) => if !region_ok(region) || (exists|j: int|
            0 <= j < i && regions_meet(region, (#[trigger] regions[j])->Ok_0)) {
            Some(Error::EINVAL)
        } else {
            None
        },
    }
}

/// Why one of the first regions of the loader is refused, if one is.
pub open spec fn regions_refusal(regions: Seq<Result<(u64, u64), Error>>, n: int) -> Option<Error>
    decreases n,
{
    if n <= 0 {
        None
    } else {
        platform::first(regions_refusal(regions, n - 1), region_refusal(regions, n - 1))
    }
}

/// Why the firmware is not started, if it is not.
pub open spec fn boot_refusal(inputs: BootInputs) -> Option<Error> {
    match inputs.firmware {
        Err(e) => Some(e),
        Ok(build) => if build@ != firmware_build() {
            Some(Error::ENOTSUPP)
        } else {
            match inputs.private_vm {
                Err(e) => Some(e),
                Ok(range) => if range@ != seq![PRIVATE_VM_START, PRIVATE_VM_SIZE] {
                    Some(Error::EINVAL)
                } else {
                    regions_refusal(inputs.regions@, 5)
                },
            }
        },
    }
}

/// Checks what the loader says, before the firmware is started.
pub fn validate_boot_resources(inputs: &BootInputs) -> (out: Result<(), Error>)
    ensures
        out == match boot_refusal(*inputs) {
            None => Ok::<(), Error>(()),
            Some(e) => Err(e),
        },
{
    match &inputs.firmware {
        Err(e) => {
            return Err(*e);
        },
        Ok(build) => {
            if !is_supported(build) {
                return Err(Error::ENOTSUPP);
            }
        },
    }
    match &inputs.private_vm {
        Err(e) => {
            return Err(*e);
        },
        Ok(range) => {
            if range.len() != 2 || range[0] != PRIVATE_VM_START || range[1] != PRIVATE_VM_SIZE {
                return Err(Error::EINVAL);
            }
            assert(range@ =~= seq![PRIVATE_VM_START, PRIVATE_VM_SIZE]);
        },
    }
    let mut known: Vec<(u64, u64)> = Vec::new();
    let mut i: usize = 0;
    while i < 5
        invariant
            i <= 5,
            known@.len() == i,
            regions_refusal(inputs.regions@, i as int) is None,
            boot_refusal(*inputs) == regions_refusal(inputs.regions@, 5),
            forall|j: int|
                0 <= j < i ==> (#[trigger] inputs.regions@[j]) is Ok && inputs.regions@[j]->Ok_0
                    == known@[j] && region_ok(known@[j]),
        decreases 5 - i,
    {
        let ghost here = region_refusal(inputs.regions@, i as int);
        proof {
            lemma_refusal_first(inputs.regions@, i as int, 5);
        }
        let region: (u64, u64) = match inputs.regions[i] {
            Err(e) => {
                return Err(e);
            },
            Ok(region) => region,
        };
        let (base, size): (u64, u64) = region;
        let end: u64 = match base.checked_add(size) {
            None => {
                return Err(Error::EINVAL);
            },
            Some(end) => end,
        };
        if base == 0 || size < 0x4000 || base % 0x4000 != 0 || size % 0x4000 != 0 {
            return Err(Error::EINVAL);
        }
        let mut j: usize = 0;
        while j < i
            invariant
                j <= i < 5,
                known@.len() == i,
                region == (base, size),
                end == base + size,
                region_ok(region),
                inputs.regions@[i as int] == Ok::<(u64, u64), Error>(region),
                here == region_refusal(inputs.regions@, i as int),
                here is Some ==> boot_refusal(*inputs) == here,
                forall|k: int|
                    0 <= k < i ==> (#[trigger] inputs.regions@[k]) is Ok && inputs.regions@[k]->Ok_0
                        == known@[k] && region_ok(known@[k]),
                forall|k: int|
                    0 <= k < j ==> !regions_meet(region, (#[trigger] inputs.regions@[k])->Ok_0),
            decreases i - j,
        {
            let (other, length): (u64, u64) = known[j];
            assert(inputs.regions@[j as int]->Ok_0 == known@[j as int]);
            if base < other + length && other < end {
                assert(regions_meet(region, inputs.regions@[j as int]->Ok_0));
                return Err(Error::EINVAL);
            }
            j += 1;
        }
        known.push(region);
        i += 1;
    }
    Ok(())
}

/// The first refusal among the regions decides.
proof fn lemma_refusal_first(regions: Seq<Result<(u64, u64), Error>>, i: int, n: int)
    requires
        0 <= i < n,
        regions_refusal(regions, i) is None,
    ensures
        region_refusal(regions, i) is Some ==> regions_refusal(regions, n) == region_refusal(regions, i),
    decreases n,
{
    if i + 1 < n {
        lemma_refusal_first(regions, i, n - 1);
    }
}

/// Where the firmware is started, the loader's regions are whole pages, and no two of them meet.
pub proof fn lemma_boot_regions(inputs: BootInputs, i: int, j: int)
    requires
        boot_refusal(inputs) is None,
        0 <= i < j < 5,
    ensures
        inputs.regions@[i] is Ok,
        inputs.regions@[j] is Ok,
        region_ok(inputs.regions@[i]->Ok_0),
        region_ok(inputs.regions@[j]->Ok_0),
        !regions_meet(inputs.regions@[i]->Ok_0, inputs.regions@[j]->Ok_0),
{
    lemma_no_refusal(inputs.regions@, i, 5);
    lemma_no_refusal(inputs.regions@, j, 5);
    assert(!regions_meet(inputs.regions@[j]->Ok_0, inputs.regions@[i]->Ok_0));
}

proof fn lemma_no_refusal(regions: Seq<Result<(u64, u64), Error>>, i: int, n: int)
    requires
        0 <= i < n,
        regions_refusal(regions, n) is None,
    ensures
        region_refusal(regions, i) is None,
    decreases n,
{
    if i + 1 < n {
        lemma_no_refusal(regions, i, n - 1);
    }
}

/// Where in the firmware's memory a crash buffer lies that the firmware asks for.
pub fn crash_buffer(iova: u64, size: u64, start: u64, length: u64) -> (out: Result<u64, Error>)
    ensures
        out == if start <= iova && iova - start + size <= length {
            Ok::<u64, Error>((iova - start) as u64)
        } else {
            Err(Error::EINVAL)
        },
{
    if iova < start {
        return Err(Error::EINVAL);
    }
    let offset: u64 = iova - start;
    match offset.checked_add(size) {
        None => Err(Error::EINVAL),
        Some(end) => if end > length {
            Err(Error::EINVAL)
        } else {
            Ok(offset)
        },
    }
}

/// Whether a message of the firmware only says that there is something in a ring.
pub fn is_ring_notification(endpoint: u8, message: u64) -> (out: bool)
    ensures
        out == (endpoint == 0x20 && message == 0x0042_0000_0000_0000),
{
    endpoint == 0x20 && message == 0x0042_0000_0000_0000
}

/// Checks that the processor of the firmware is stopped. Answers what its control register gets to
/// start it.
pub fn cold_start(control: u32, status: u32) -> (out: Result<u32, Error>)
    ensures
        out == if control & 0x10 != 0 || status & 3 != 2 {
            Err::<u32, Error>(Error::EBUSY)
        } else {
            Ok(control | 0x10)
        },
{
    if control & 0x10 != 0 || status & 3 != 2 {
        return Err(Error::EBUSY);
    }
    Ok(control | 0x10)
}

/// The registers that are set before the firmware starts: two that get a bit, with what they hold, and
/// one more.
pub fn start_registers(first: u32, second: u32) -> (out: [(u64, u32); 3])
    ensures
        out@ == seq![
            (0x100_0104u64, first | 1u32),
            (0x100_0108u64, second | 1u32),
            (0xd0_6030u64, 6u32),
        ],
{
    let out: [(u64, u32); 3] = [(0x100_0104, first | 1), (0x100_0108, second | 1), (0xd0_6030, 6)];
    assert(out@ =~= seq![
        (0x100_0104u64, first | 1u32),
        (0x100_0108u64, second | 1u32),
        (0xd0_6030u64, 6u32),
    ]);
    out
}

/// What the handoff page gets before the firmware starts.
pub fn handoff_fields() -> (out: [Field; 3])
    ensures
        out@ == seq![w64(0, 0x4b1d_0000_0000_0002), w32(0x18, u32::MAX), w64(0x640, 0)],
{
    let out: [Field; 3] = [w64(0, 0x4b1d_0000_0000_0002), w32(0x18, u32::MAX), w64(0x640, 0)];
    assert(out@ =~= seq![w64(0, 0x4b1d_0000_0000_0002), w32(0x18, u32::MAX), w64(0x640, 0)]);
    out
}

/// The register behind a cursor of a work channel.
pub open spec fn cursor_register(va: int) -> int {
    if va >= 0xffff_fc20_0002_8000 {
        0xd6_4000 + (va - 0xffff_fc20_0002_8000)
    } else {
        0xd6_0000 + (va - 0xffff_fc20_0002_0000)
    }
}

/// The first of the cursors of the work channels, all zero.
pub open spec fn cleared_cursors(n: nat) -> Seq<(u64, u32)> {
    Seq::new(
        n,
        |i: int|
            (
                cursor_register(
                    fw::bootstrap_channel(BUNDLE_ADDRESS, i / 3).0[i % 3] as int,
                ) as u64,
                0u32,
            ),
    )
}

/// The cursors of the control channel: its first slot is part of the main object.
pub open spec fn opening_cursors() -> Seq<(u64, u32)> {
    seq![(0xd6_40c0u64, 0u32), (0xd6_40c8, 0), (0xd6_0060, 1)]
}

/// The registers that are set, and have to read back, before the graph is published.
pub fn publish_registers() -> (out: Vec<(u64, u32)>)
    ensures
        out@ == cleared_cursors(36) + opening_cursors(),
{
    let main: MainConfig = MainConfig::bootstrap(BUNDLE_ADDRESS);
    let mut out: Vec<(u64, u32)> = Vec::new();
    let mut i: usize = 0;
    assert(out@ =~= cleared_cursors(0));
    while i < 36
        invariant
            i <= 36,
            main.is_bootstrap(BUNDLE_ADDRESS),
            out@ == cleared_cursors(i as nat),
        decreases 36 - i,
    {
        proof {
            let c = i as int / 3;
            assert(main.channels@[c].state@ == fw::bootstrap_channel(BUNDLE_ADDRESS, c).0);
            assert(fw::state_offsets()[c].0 <= 0xb0 && fw::state_offsets()[c].1 <= 0x58);
        }
        let va: u64 = main.channels[i / 3].state[i % 3];
        let register: u64 = if va >= 0xffff_fc20_0002_8000 {
            0xd6_4000 + (va - 0xffff_fc20_0002_8000)
        } else {
            0xd6_0000 + (va - 0xffff_fc20_0002_0000)
        };
        out.push((register, 0));
        i += 1;
        assert(out@ =~= cleared_cursors(i as nat));
    }
    out.push((0xd6_40c0, 0));
    out.push((0xd6_40c8, 0));
    out.push((0xd6_0060, 1));
    assert(out@ =~= cleared_cursors(36) + opening_cursors());
    out
}

/// Checks that a register holds what was written to it.
pub fn read_back(written: u32, read: u32) -> (out: Result<(), Error>)
    ensures
        out == if written == read {
            Ok::<(), Error>(())
        } else {
            Err(Error::EIO)
        },
{
    if written == read {
        Ok(())
    } else {
        Err(Error::EIO)
    }
}

/// A wait for an answer of the firmware.
#[derive(Clone, Copy, Debug, PartialEq, Eq, Structural)]
pub struct Wait {
    /// How often the host will still look.
    pub left: u32,
}

impl Wait {
    /// A wait that has not begun.
    pub fn new() -> (out: Self)
        ensures
            out.left == POLLS,
    {
        Wait { left: POLLS }
    }

    /// Takes in whether the answer was there. Ends the wait with success, or without when the host has
    /// looked often enough; else the host looks again a millisecond later.
    pub fn observe(&mut self, answered: bool) -> (out: Option<Result<(), Error>>)
        requires
            old(self).left > 0,
        ensures
            final(self).left == old(self).left - if answered {
                0int
            } else {
                1
            },
            out == if answered {
                Some(Ok::<(), Error>(()))
            } else if old(self).left == 1 {
                Some(Err(Error::ETIMEDOUT))
            } else {
                None
            },
    {
        if answered {
            return Some(Ok(()));
        }
        self.left = self.left - 1;
        if self.left == 0 {
            return Some(Err(Error::ETIMEDOUT));
        }
        None
    }
}

/// Whether the firmware has accepted the graph.
pub fn graph_accepted(status: u32) -> (out: bool)
    ensures
        out == (status == 1),
{
    status == 1
}

/// The pages of the opening control, which are reserved behind the graph.
pub open spec fn opening_region(i: int) -> Region {
    if i == 0 {
        Region { address: CONTROL_DATA, size: 0x4000, prot: prot_fw_priv_rw() }
    } else if i == 1 {
        Region { address: CONTROL_AUX, size: 0x4000, prot: prot_fw_shared_rw() }
    } else if i == 2 {
        Region { address: 0xffff_fc21_8100_0000, size: 0x4000, prot: prot_fw_shared_rw() }
    } else {
        Region { address: 0xffff_fc21_8100_8000, size: 0x4000, prot: prot_fw_shared_rw() }
    }
}

/// The pages of the opening control: its data, its result, and the state and ring of the notifications
/// of mappings.
pub fn opening_regions() -> (out: [Region; 4])
    ensures
        forall|i: int| 0 <= i < 4 ==> #[trigger] out@[i] == opening_region(i),
{
    [
        Region { address: CONTROL_DATA, size: 0x4000, prot: prot_fw_priv_rw() },
        Region { address: CONTROL_AUX, size: 0x4000, prot: prot_fw_shared_rw() },
        Region { address: 0xffff_fc21_8100_0000, size: 0x4000, prot: prot_fw_shared_rw() },
        Region { address: 0xffff_fc21_8100_8000, size: 0x4000, prot: prot_fw_shared_rw() },
    ]
}

/// The pages of the opening control can be reserved: they are whole pages behind the windows of
/// registers or between the regions of the graph, and do not meet each other.
pub proof fn lemma_opening_clear(i: int, j: int, k: int)
    requires
        0 <= i < j < 4,
        0 <= k < REGIONS,
    ensures
        opening_region(i).address % 0x4000 == 0,
        opening_region(j).address % 0x4000 == 0,
        bootmap::row_end(k) <= opening_region(i).address || opening_region(i).address + 0x4000
            <= bootmap::row(k).0,
        bootmap::row_end(k) <= opening_region(j).address || opening_region(j).address + 0x4000
            <= bootmap::row(k).0,
        opening_region(i).address + 0x4000 <= opening_region(j).address || opening_region(j).address
            + 0x4000 <= opening_region(i).address,
        opening_region(i).address + 0x4000 <= platform::REGISTER_BASE || platform::REGISTER_LIMIT
            <= opening_region(i).address,
        opening_region(j).address + 0x4000 <= platform::REGISTER_BASE || platform::REGISTER_LIMIT
            <= opening_region(j).address,
{
}

/// Plans the opening free list, which is published before the two opening records.
pub fn opening_plan() -> (out: Vec<Write>)
    ensures
        plan::stored(out@) == seq![
            (CONTROL_DATA, bytes::image(0x80, fw::opening_flist_fields()), false),
            (
                (BUNDLE_ADDRESS + 0x1df40) as u64,
                bytes::image(0x80, fw::opening_control_fields()),
                true,
            ),
        ],
{
    let mut writes: Vec<Write> = Vec::new();
    let list: [u8; 0x80] = opening_flist();
    push_write(&mut writes, CONTROL_DATA, &list, false);
    let records: [u8; 0x80] = opening_control();
    push_write(&mut writes, BUNDLE_ADDRESS + 0x1df40, &records, true);
    assert(plan::stored(writes@) =~= seq![
        (CONTROL_DATA, bytes::image(0x80, fw::opening_flist_fields()), false),
        ((BUNDLE_ADDRESS + 0x1df40) as u64, bytes::image(0x80, fw::opening_control_fields()), true),
    ]);
    writes
}

/// Checks the cursors of the control channel before the opening records are announced.
pub fn check_opening(cursors: (u32, u32, u32)) -> (out: Result<(), Error>)
    ensures
        out == if cursors == (1u32, 1u32, 1u32) {
            Ok::<(), Error>(())
        } else {
            Err(Error::EIO)
        },
{
    if cursors.0 == 1 && cursors.1 == 1 && cursors.2 == 1 {
        Ok(())
    } else {
        Err(Error::EIO)
    }
}

/// Plans where the firmware finds the notifications of mappings.
pub fn notification_plan() -> (out: Vec<Write>)
    ensures
        plan::stored(out@) == seq![
            (0xffff_fc20_0003_4f88u64, plan::double(0xffff_fc21_8100_0000), true),
            (0xffff_fc20_0003_4f90u64, plan::double(0xffff_fc21_8100_8000), true),
            (0xffff_fc20_0003_4fd4u64, plan::word(1), true),
        ],
        bootmap::all_covered(plan::stored(out@)),
{
    let mut writes: Vec<Write> = Vec::new();
    push_double(&mut writes, 0xffff_fc20_0003_4f88, 0xffff_fc21_8100_0000);
    push_double(&mut writes, 0xffff_fc20_0003_4f90, 0xffff_fc21_8100_8000);
    push_word(&mut writes, 0xffff_fc20_0003_4fd4, 1);
    assert(plan::stored(writes@) =~= seq![
        (0xffff_fc20_0003_4f88u64, plan::double(0xffff_fc21_8100_0000), true),
        (0xffff_fc20_0003_4f90u64, plan::double(0xffff_fc21_8100_8000), true),
        (0xffff_fc20_0003_4fd4u64, plan::word(1), true),
    ]);
    assert(bootmap::row_covers(2, 0xffff_fc20_0003_4f88, 8));
    assert(bootmap::row_covers(2, 0xffff_fc20_0003_4f90, 8));
    assert(bootmap::row_covers(2, 0xffff_fc20_0003_4fd4, 4));
    writes
}

/// Whether the firmware has taken the opening records: the cursors of the control channel, and the word
/// of its completion.
pub fn control_retired(cursors: (u32, u32, u32), completion: u32) -> (out: bool)
    ensures
        out == (cursors == (3u32, 3u32, 3u32) && completion == 1),
{
    cursors.0 == 3 && cursors.1 == 3 && cursors.2 == 3 && completion == 1
}

/// Plans the words that are cleared before the opening barrier.
pub fn cleared_plan() -> (out: Vec<Write>)
    ensures
        plan::stored(out@) == seq![
            (0xffff_fc20_0003_f190u64, plan::word(0), true),
            (0xffff_fc20_0003_f198u64, plan::word(0), true),
        ],
        bootmap::all_covered(plan::stored(out@)),
{
    let mut writes: Vec<Write> = Vec::new();
    push_word(&mut writes, 0xffff_fc20_0003_f190, 0);
    push_word(&mut writes, 0xffff_fc20_0003_f198, 0);
    assert(plan::stored(writes@) =~= seq![
        (0xffff_fc20_0003_f190u64, plan::word(0), true),
        (0xffff_fc20_0003_f198u64, plan::word(0), true),
    ]);
    assert(bootmap::row_covers(2, 0xffff_fc20_0003_f190, 4));
    assert(bootmap::row_covers(2, 0xffff_fc20_0003_f198, 4));
    writes
}

/// Checks that the channel of the opening barrier is idle.
pub fn check_barrier(cursors: (u32, u32, u32)) -> (out: Result<(), Error>)
    ensures
        out == if cursors == (0u32, 0u32, 0u32) {
            Ok::<(), Error>(())
        } else {
            Err(Error::EBUSY)
        },
{
    if cursors.0 == 0 && cursors.1 == 0 && cursors.2 == 0 {
        Ok(())
    } else {
        Err(Error::EBUSY)
    }
}

/// Plans the message that announces the opening queue, with two satisfied barriers.
pub fn barrier_plan() -> (out: Vec<Write>)
    ensures
        plan::stored(out@) == seq![
            (
                (BUNDLE_ADDRESS + 0x16240) as u64,
                bytes::image(0x18, queue::channel_fields(BOOT_QUEUE, 2, 1, 1, true, 1)),
                true,
            ),
        ],
        bootmap::all_covered(plan::stored(out@)),
{
    let mut writes: Vec<Write> = Vec::new();
    let message: [u8; 0x18] = channel(BOOT_QUEUE, 2, 1, 1, true, 1);
    push_write(&mut writes, BUNDLE_ADDRESS + 0x16240, &message, true);
    assert(plan::stored(writes@) =~= seq![
        (
            (BUNDLE_ADDRESS + 0x16240) as u64,
            bytes::image(0x18, queue::channel_fields(BOOT_QUEUE, 2, 1, 1, true, 1)),
            true,
        ),
    ]);
    assert(bootmap::row_covers(42, BUNDLE_ADDRESS + 0x16240, 0x18));
    writes
}

/// Whether the firmware has registered the first work: the cursor of the control data has passed all
/// operand buffers.
pub fn work_registered(cursor: u32, aux: u32) -> (out: bool)
    ensures
        out == (cursor == 20 * 8 && aux <= 1),
{
    cursor == 160 && (aux == 0 || aux == 1)
}

/// Whether the opening barrier has retired: both cursors of its channel have moved, and its two items are
/// read. The cursor of their completion stays.
pub fn barrier_retired(done: u32, read: u32, items: u32) -> (out: bool)
    ensures
        out == (done == 1 && read == 1 && items == 2),
{
    done == 1 && read == 1 && items == 2
}

impl Platform {
    /// The highest frequency of the board.
    pub fn maximum_frequency_khz(&self) -> (out: u32)
        requires
            self.freq_a@[10] * 1000 <= u32::MAX,
        ensures
            out == self.freq_a@[10] * 1000,
    {
        self.freq_a[10] * 1000
    }
}

} // verus!
