//! Board inputs, and the initialization objects built from them.
use crate::bytes;
use crate::bytes::{fill, get32, get64, store, w16, w32, w64, Field};
use crate::error::Error;
use vstd::prelude::*;

verus! {

/// Page size of the firmware.
pub const PAGE: u64 = 0x4000;

/// First address at which the firmware sees register windows.
pub const REGISTER_BASE: u64 = 0xffff_fc21_8020_0000;

/// End of the addresses at which the firmware sees register windows.
pub const REGISTER_LIMIT: u64 = 0xffff_fc21_8100_0000;

/// Physical address of the first memory controller.
pub const MCC_BASE: u64 = 0x2_201c_4000;

/// Size of the registers of one memory controller.
pub const MCC_SIZE: u32 = 0x18000;

/// Number of performance states.
pub const STATES: usize = 11;

/// Bits of the number 1.02 in single precision.
pub const ONE_POINT_ZERO_TWO: u32 = 0x3f82_8f5c;

/// A buffer of zero bytes.
pub fn zeroed(size: usize) -> (out: Vec<u8>)
    ensures
        out@ == bytes::zeros(size as nat),
{
    let mut out: Vec<u8> = Vec::new();
    while out.len() < size
        invariant
            out@.len() <= size,
            forall|i: int| 0 <= i < out@.len() ==> #[trigger] out@[i] == 0,
        decreases size - out@.len(),
    {
        out.push(0);
    }
    assert(out@ =~= bytes::zeros(size as nat));
    out
}

/// Stores a four byte field.
pub fn put32(out: &mut [u8], offset: usize, value: u32)
    requires
        offset + 4 <= old(out)@.len(),
    ensures
        final(out)@ == bytes::overlay(old(out)@, seq![w32(offset, value)]),
{
    store(out, w32(offset, value));
}

/// The word that a read of an optional property stands for.
pub open spec fn word_of(read: Result<Option<Vec<u8>>, Error>, default: Option<u32>) -> Result<
    u32,
    Error,
> {
    match read {
        Err(e) => Err(e),
        Ok(None) => match default {
            None => Err(Error::ENOENT),
            Some(value) => Ok(value),
        },
        Ok(Some(property)) => if property@.len() == 4 {
            Ok(bytes::u32_in(property@, 0) as u32)
        } else {
            Err(Error::EINVAL)
        },
    }
}

/// The word of a property that the boot loader passes on as it found it, including the bit patterns of
/// floating-point numbers.
pub fn adt_word(read: &Result<Option<Vec<u8>>, Error>, default: Option<u32>) -> (out: Result<
    u32,
    Error,
>)
    ensures
        out == word_of(*read, default),
{
    match read {
        Err(e) => Err(*e),
        Ok(None) => match default {
            None => Err(Error::ENOENT),
            Some(value) => Ok(value),
        },
        Ok(Some(property)) => {
            if property.len() == 4 {
                Ok(get32(property.as_slice(), 0))
            } else {
                Err(Error::EINVAL)
            }
        },
    }
}

/// The error of a read of a ladder, if there is one.
pub open spec fn ladder_error(read: Result<Vec<u32>, Error>) -> Option<Error> {
    match read {
        Err(e) => Some(e),
        Ok(values) => if values@.len() == STATES {
            None
        } else {
            Some(Error::EINVAL)
        },
    }
}

/// One value per performance state.
pub fn ladder(read: &Result<Vec<u32>, Error>) -> (out: Result<[u32; 11], Error>)
    ensures
        match out {
            Ok(values) => *read is Ok && values@ == read->Ok_0@ && ladder_error(*read) is None,
            Err(e) => ladder_error(*read) == Some(e),
        },
{
    match read {
        Err(e) => Err(*e),
        Ok(values) => {
            if values.len() != STATES {
                return Err(Error::EINVAL);
            }
            let out: [u32; 11] = [
                values[0],
                values[1],
                values[2],
                values[3],
                values[4],
                values[5],
                values[6],
                values[7],
                values[8],
                values[9],
                values[10],
            ];
            assert(out@ =~= values@);
            Ok(out)
        },
    }
}

/// A window of registers that the firmware uses.
#[derive(Clone, Copy, Debug, PartialEq, Eq)]
pub struct Register {
    pub slot: usize,
    pub physical: u64,
    pub address: u64,
    pub size: u32,
    pub stride: u32,
    pub relative: u64,
    pub flags: u32,
}

/// What the description of the board says, or why it could not be read.
pub struct BoardInputs {
    pub power: Result<Vec<u32>, Error>,
    pub freq_a: Result<Vec<u32>, Error>,
    pub freq_b: Result<Vec<u32>, Error>,
    pub sample_clocks: Result<Option<Vec<u8>>, Error>,
    pub sample_period: Result<Option<Vec<u8>>, Error>,
    pub core_mask: Result<u32, Error>,
    pub core_voltage: Result<Vec<u32>, Error>,
    pub memory_voltage: Result<Vec<u32>, Error>,
    pub index_a: Result<Vec<u32>, Error>,
    pub index_b: Result<Vec<u32>, Error>,
    pub relative_a: Result<Vec<u32>, Error>,
    pub relative_b: Result<Vec<u32>, Error>,
    pub revision: Result<u32, Error>,
    pub no_gpc: Result<Option<Vec<u8>>, Error>,
    pub reg: Result<Vec<u32>, Error>,
    pub irq: Result<Vec<u8>, Error>,
    pub mcc_mask: Result<Option<Vec<u8>>, Error>,
}

/// The board, as its description gives it.
pub struct Platform {
    pub freq_a: [u32; 11],
    pub freq_b: [u32; 11],
    pub core_voltage: [u32; 11],
    pub memory_voltage: [u32; 11],
    pub index_a: [u32; 11],
    pub index_b: [u32; 11],
    pub relative_a: [u32; 11],
    pub relative_b: [u32; 11],
    pub maximum_power: u32,
    pub core_mask: u32,
    pub revision: u32,
    pub period_ms: u32,
    pub period_clocks: u32,
    pub registers: Vec<Register>,
    pub mcc: Vec<u64>,
    pub gpc: bool,
}

/// Whether a ladder of powers starts at zero, ends in a positive number and does not fall.
pub open spec fn power_ladder(power: Seq<u32>) -> bool {
    &&& power[0] == 0
    &&& 0 < power[10] <= i32::MAX
    &&& forall|i: int| 0 <= i < 10 ==> #[trigger] power[i] <= power[i + 1]
}

/// Whether a ladder of frequencies starts at zero and rises.
pub open spec fn frequency_ladder(frequencies: Seq<u32>) -> bool {
    &&& frequencies[0] == 0
    &&& forall|i: int| 0 <= i < 10 ==> #[trigger] frequencies[i] < frequencies[i + 1]
}

/// Whether the values of a ladder do not fall, or rise where `strict`.
fn rises(values: &[u32; 11], strict: bool) -> (out: bool)
    ensures
        out == forall|i: int|
            0 <= i < 10 ==> #[trigger] values@[i] < values@[i + 1] || (!strict && values@[i]
                == values@[i + 1]),
{
    let mut i: usize = 0;
    while i < 10
        invariant
            i <= 10,
            forall|k: int|
                0 <= k < i ==> #[trigger] values@[k] < values@[k + 1] || (!strict && values@[k]
                    == values@[k + 1]),
        decreases 10 - i,
    {
        if values[i] > values[i + 1] || (strict && values[i] == values[i + 1]) {
            assert(values@[i as int] >= values@[i + 1]);
            return false;
        }
        i += 1;
    }
    true
}

/// The sample period in clocks: as given, else from the period in milliseconds.
pub open spec fn period_of(inputs: BoardInputs) -> Result<u32, Error> {
    match word_of(inputs.sample_clocks, None) {
        Err(Error::ENOENT) => match word_of(inputs.sample_period, None) {
            Err(e) => Err(e),
            Ok(ms) => if ms * 24000 <= u32::MAX {
                Ok((ms * 24000) as u32)
            } else {
                Err(Error::EINVAL)
            },
        },
        other => other,
    }
}

/// The first of two errors.
pub open spec fn first(a: Option<Error>, b: Option<Error>) -> Option<Error> {
    if a is Some {
        a
    } else {
        b
    }
}

/// The error of a result, if there is one.
pub open spec fn error_of<T>(result: Result<T, Error>) -> Option<Error> {
    match result {
        Err(e) => Some(e),
        Ok(_) => None,
    }
}

/// An error where a condition does not hold.
pub open spec fn unless(condition: bool) -> Option<Error> {
    if condition {
        None
    } else {
        Some(Error::EINVAL)
    }
}

/// The address and the length in the second entry of the `reg` property.
pub open spec fn second_range(reg: Seq<u32>) -> (int, int) {
    (reg[4] * 0x1_0000_0000 + reg[5], reg[6] * 0x1_0000_0000 + reg[7])
}

/// The address in the last record of the interrupt property.
pub open spec fn irq_address(irq: Seq<u8>) -> int {
    bytes::u64_in(irq, irq.len() - 20)
}

/// Why the register windows cannot be built, if they cannot.
pub open spec fn register_refusal(
    reg: Result<Vec<u32>, Error>,
    irq: Result<Vec<u8>, Error>,
    mask: Result<Option<Vec<u8>>, Error>,
) -> Option<Error> {
    let (base, span) = second_range(reg->Ok_0@);
    first(
        error_of(reg),
        first(
            unless(reg->Ok_0@.len() == 8),
            first(
                error_of(irq),
                first(
                    unless(irq->Ok_0@.len() == 20 || irq->Ok_0@.len() == 40),
                    first(
                        unless(PAGE <= irq_address(irq->Ok_0@) < 0x1_0000_0000_0000),
                        first(
                            error_of(word_of(mask, Some(3))),
                            unless(
                                word_of(mask, Some(3))->Ok_0 != 0 && span >= 0x100_8000 && base
                                    + 0x100_0000 <= u64::MAX,
                            ),
                        ),
                    ),
                ),
            ),
        ),
    )
}

/// Why a board is refused, if it is.
pub open spec fn refusal(inputs: BoardInputs) -> Option<Error> {
    first(
        ladder_error(inputs.power),
        first(
            ladder_error(inputs.freq_a),
            first(
                ladder_error(inputs.freq_b),
                first(
                    unless(
                        power_ladder(inputs.power->Ok_0@) && frequency_ladder(inputs.freq_a->Ok_0@)
                            && frequency_ladder(inputs.freq_b->Ok_0@),
                    ),
                    first(
                        error_of(period_of(inputs)),
                        first(
                            unless(period_of(inputs)->Ok_0 >= 24000),
                            first(
                                error_of(inputs.core_mask),
                                first(
                                    unless(0 < inputs.core_mask->Ok_0 <= 0x3ff),
                                    first(
                                        ladder_error(inputs.core_voltage),
                                        first(
                                            ladder_error(inputs.memory_voltage),
                                            late_refusal(inputs),
                                        ),
                                    ),
                                ),
                            ),
                        ),
                    ),
                ),
            ),
        ),
    )
}

/// Why a board is refused whose ladders of power, frequency and voltage are in order.
pub open spec fn late_refusal(inputs: BoardInputs) -> Option<Error> {
    first(
        ladder_error(inputs.index_a),
        first(
            ladder_error(inputs.index_b),
            first(
                ladder_error(inputs.relative_a),
                first(
                    ladder_error(inputs.relative_b),
                    first(
                        error_of(inputs.revision),
                        first(
                            error_of(word_of(inputs.no_gpc, Some(0))),
                            register_refusal(inputs.reg, inputs.irq, inputs.mcc_mask),
                        ),
                    ),
                ),
            ),
        ),
    )
}

/// The memory controllers among the first `n` that a mask selects.
pub open spec fn mcc_of(mask: u32, n: nat) -> Seq<u64>
    decreases n,
{
    if n == 0 {
        seq![]
    } else {
        let rest = mcc_of(mask, (n - 1) as nat);
        if mask & (1u32 << ((n - 1) as u32)) != 0 {
            rest.push((MCC_BASE + (n - 1) * 0x200_0000) as u64)
        } else {
            rest
        }
    }
}

/// A window relative to the registers of the GPU.
#[verifier::allow_in_spec]
pub fn relative_window(slot: usize, base: u64, offset: u64, size: u32) -> Register
    requires
        base + offset <= u64::MAX,
    returns
        (Register {
            slot,
            physical: (base + offset) as u64,
            address: 0,
            size,
            stride: size,
            relative: offset,
            flags: 2,
        }),
{
    Register {
        slot,
        physical: base + offset,
        address: 0,
        size,
        stride: size,
        relative: offset,
        flags: 2,
    }
}

/// A window at a physical address.
#[verifier::allow_in_spec]
pub fn window(slot: usize, physical: u64, size: u32, flags: u32) -> Register
    returns
        (Register { slot, physical, address: 0, size, stride: size, relative: 0, flags }),
{
    Register { slot, physical, address: 0, size, stride: size, relative: 0, flags }
}

/// The windows of registers, in the order of their slots, before they have addresses.
pub open spec fn windows(base: u64, irq: u64, mcc: Seq<u64>) -> Seq<Register> {
    seq![
        window(0, (irq - irq as int % 0x4000) as u64, 0x4000, 2),
        (Register {
            slot: 3,
            physical: mcc[0],
            address: 0,
            size: (mcc.len() * MCC_SIZE) as u32,
            stride: MCC_SIZE,
            relative: 0,
            flags: 2,
        }),
        window(9, 0x3_803d_0000, 0x1000, 2),
        window(10, 0x3_803c_0000, 0x2000, 0),
        window(12, 0x5_0165_c000, 0x4000, 2),
        window(14, 0x3_8028_0000, 0x8000, 0),
        window(15, 0x3_8c84_0000, 0x24000, 0),
        relative_window(17, base, 0, 0x20000),
        window(22, (base + 0x100_0000) as u64, 0x8000, 2),
        relative_window(26, base, 0xd0_4000, 0x8000),
        relative_window(27, base, 0xd0_d000, 0x1000),
        relative_window(28, base, 0xd5_8000, 0x8000),
        relative_window(29, base, 0xd1_0000, 0x4000),
        relative_window(31, base, 0xd4_0000, 0x4000),
        relative_window(32, base, 0xd6_0000, 0x8000),
        window(39, (base + 0xe0_8000) as u64, 0x8000, 2),
        relative_window(40, base, 0xe1_c000, 0x4000),
        window(41, (base + 0xe1_f800) as u64, 0x4000, 2),
    ]
}

/// The bytes that a window takes: whole pages, and a page that stays free.
pub open spec fn window_span(window: Register) -> int {
    let covered = window.physical % PAGE + window.size;
    (covered + PAGE - 1) / PAGE as int * PAGE + PAGE
}

/// The address at which the firmware sees the page of the first byte of window `n`.
pub open spec fn window_base(windows: Seq<Register>, n: int) -> int
    decreases n,
{
    if n <= 0 {
        REGISTER_BASE as int
    } else {
        window_base(windows, n - 1) + window_span(windows[n - 1])
    }
}

/// The windows, each at its address.
pub open spec fn placed(windows: Seq<Register>) -> Seq<Register> {
    Seq::new(
        windows.len(),
        |i: int|
            Register {
                address: (window_base(windows, i) + windows[i].physical as int % PAGE as int) as u64,
                ..windows[i]
            },
    )
}

/// Whether windows of registers, with their memory controllers, are those of a board.
pub open spec fn is_placed(registers: Seq<Register>, mcc: Seq<u64>) -> bool {
    exists|base: u64, irq: u64| #[trigger] is_placed_at(registers, mcc, base, irq)
}

/// Whether windows of registers, with their memory controllers, are those of a board with its registers
/// at one address and its interrupt controller at another.
pub open spec fn is_placed_at(registers: Seq<Register>, mcc: Seq<u64>, base: u64, irq: u64) -> bool {
    &&& base + 0x100_0000 <= u64::MAX
    &&& 0 < mcc.len() <= 32
    &&& mcc[0] % 0x4000 == 0
    &&& registers == placed(windows(base, irq, mcc))
}

/// The windows fit between the two limits, whatever memory controllers there are.
pub proof fn lemma_windows_fit(base: u64, irq: u64, mcc: Seq<u64>, n: int)
    requires
        base + 0x100_0000 <= u64::MAX,
        0 < mcc.len() <= 32,
        0 <= n <= 18,
    ensures
        REGISTER_BASE <= window_base(windows(base, irq, mcc), n) <= REGISTER_LIMIT - 0x70_0000,
        window_base(windows(base, irq, mcc), n) <= REGISTER_BASE + n * 0x3_0000 + if n >= 2 {
            0x30_8000int
        } else {
            0
        },
    decreases n,
{
    if n > 0 {
        lemma_windows_fit(base, irq, mcc, n - 1);
        let w = windows(base, irq, mcc)[n - 1];
        assert(n != 2 ==> w.size <= 0x24000);
        assert(w.size <= 0x30_0000);
    }
}

proof fn lemma_window_base_aligned(all: Seq<Register>, n: int)
    requires
        0 <= n,
    ensures
        window_base(all, n) % 0x4000 == 0,
    decreases n,
{
    if n > 0 {
        lemma_window_base_aligned(all, n - 1);
    }
}

/// Two windows do not meet.
pub proof fn lemma_windows_apart(base: u64, irq: u64, mcc: Seq<u64>, i: int, j: int)
    requires
        base + 0x100_0000 <= u64::MAX,
        0 < mcc.len() <= 32,
        0 <= i < j < 18,
    ensures
        ({
            let p = placed(windows(base, irq, mcc));
            p[i].address + p[i].size <= p[j].address - p[j].physical % PAGE
        }),
    decreases j,
{
    let w = windows(base, irq, mcc);
    lemma_windows_fit(base, irq, mcc, i);
    lemma_windows_fit(base, irq, mcc, j);
    if j == i + 1 {
        lemma_windows_fit(base, irq, mcc, i + 1);
    } else {
        lemma_windows_apart(base, irq, mcc, i, j - 1);
        lemma_windows_fit(base, irq, mcc, j - 1);
    }
}

/// There are as many memory controllers as bits, and one where the mask is not zero.
proof fn lemma_mcc(mask: u32, n: nat)
    requires
        n <= 32,
    ensures
        mcc_of(mask, n).len() <= n,
        forall|k: nat|
            k < n && mask & (1u32 << (k as u32)) != 0 ==> #[trigger] mcc_of(mask, k).len() < mcc_of(
                mask,
                n,
            ).len(),
        forall|k: nat| k <= n ==> #[trigger] mcc_of(mask, k).len() <= mcc_of(mask, n).len(),
    decreases n,
{
    if n > 0 {
        lemma_mcc(mask, (n - 1) as nat);
    }
}

proof fn lemma_mcc_aligned(mask: u32, n: nat)
    requires
        n <= 32,
    ensures
        forall|i: int| 0 <= i < mcc_of(mask, n).len() ==> (#[trigger] mcc_of(mask, n)[i]) % 0x4000 == 0,
    decreases n,
{
    if n > 0 {
        lemma_mcc_aligned(mask, (n - 1) as nat);
        let rest = mcc_of(mask, (n - 1) as nat);
        assert forall|i: int| 0 <= i < mcc_of(mask, n).len() implies (#[trigger] mcc_of(mask, n)[i])
            % 0x4000 == 0 by {
            if i < rest.len() {
                assert(mcc_of(mask, n)[i] == rest[i]);
            }
        }
    }
}

/// A mask that is not zero has a bit.
proof fn lemma_mask_has_bit(mask: u32)
    requires
        mask != 0,
    ensures
        mcc_of(mask, 32).len() > 0,
{
    lemma_mcc(mask, 32);
    if mcc_of(mask, 32).len() == 0 {
        assert forall|k: u32| k < 32 implies #[trigger] (mask & (1u32 << k)) == 0 by {
            assert(mcc_of(mask, k as nat).len() >= 0);
        }
        assert(mask == 0) by (bit_vector)
            requires
                mask & (1u32 << 0u32) == 0,
                mask & (1u32 << 1u32) == 0,
                mask & (1u32 << 2u32) == 0,
                mask & (1u32 << 3u32) == 0,
                mask & (1u32 << 4u32) == 0,
                mask & (1u32 << 5u32) == 0,
                mask & (1u32 << 6u32) == 0,
                mask & (1u32 << 7u32) == 0,
                mask & (1u32 << 8u32) == 0,
                mask & (1u32 << 9u32) == 0,
                mask & (1u32 << 10u32) == 0,
                mask & (1u32 << 11u32) == 0,
                mask & (1u32 << 12u32) == 0,
                mask & (1u32 << 13u32) == 0,
                mask & (1u32 << 14u32) == 0,
                mask & (1u32 << 15u32) == 0,
                mask & (1u32 << 16u32) == 0,
                mask & (1u32 << 17u32) == 0,
                mask & (1u32 << 18u32) == 0,
                mask & (1u32 << 19u32) == 0,
                mask & (1u32 << 20u32) == 0,
                mask & (1u32 << 21u32) == 0,
                mask & (1u32 << 22u32) == 0,
                mask & (1u32 << 23u32) == 0,
                mask & (1u32 << 24u32) == 0,
                mask & (1u32 << 25u32) == 0,
                mask & (1u32 << 26u32) == 0,
                mask & (1u32 << 27u32) == 0,
                mask & (1u32 << 28u32) == 0,
                mask & (1u32 << 29u32) == 0,
                mask & (1u32 << 30u32) == 0,
                mask & (1u32 << 31u32) == 0,
        ;
    }
}

/// The memory controllers of a mask.
fn mcc_list(mask: u32) -> (out: Vec<u64>)
    ensures
        out@ == mcc_of(mask, 32),
{
    let mut out: Vec<u64> = Vec::new();
    let mut bit: u32 = 0;
    while bit < 32
        invariant
            bit <= 32,
            out@ == mcc_of(mask, bit as nat),
        decreases 32 - bit,
    {
        if mask & (1u32 << bit) != 0 {
            out.push(MCC_BASE + bit as u64 * 0x200_0000);
        }
        bit += 1;
        proof {
            assert(mcc_of(mask, bit as nat) == {
                let rest = mcc_of(mask, (bit - 1) as nat);
                if mask & (1u32 << ((bit - 1) as u32)) != 0 {
                    rest.push((MCC_BASE + (bit - 1) * 0x200_0000) as u64)
                } else {
                    rest
                }
            });
        }
    }
    out
}

/// The windows of registers and the memory controllers, in the order of their slots.
pub fn build_registers(
    reg: &Result<Vec<u32>, Error>,
    irq: &Result<Vec<u8>, Error>,
    mask: &Result<Option<Vec<u8>>, Error>,
) -> (out: Result<(Vec<Register>, Vec<u64>), Error>)
    ensures
        match out {
            Err(e) => register_refusal(*reg, *irq, *mask) == Some(e),
            Ok((registers, mcc)) => {
                &&& register_refusal(*reg, *irq, *mask) is None
                &&& mcc@ == mcc_of(word_of(*mask, Some(3))->Ok_0, 32)
                &&& registers@ == placed(
                    windows(
                        second_range(reg->Ok_0@).0 as u64,
                        irq_address(irq->Ok_0@) as u64,
                        mcc@,
                    ),
                )
                &&& is_placed(registers@, mcc@)
            },
        },
{
    let reg: &Vec<u32> = match reg {
        Err(e) => {
            return Err(*e);
        },
        Ok(reg) => reg,
    };
    if reg.len() != 8 {
        return Err(Error::EINVAL);
    }
    let base: u64 = reg[4] as u64 * 0x1_0000_0000 + reg[5] as u64;
    let span: u64 = reg[6] as u64 * 0x1_0000_0000 + reg[7] as u64;
    let irq: &Vec<u8> = match irq {
        Err(e) => {
            return Err(*e);
        },
        Ok(irq) => irq,
    };
    if irq.len() != 20 && irq.len() != 40 {
        return Err(Error::EINVAL);
    }
    let irq_address: u64 = get64(irq.as_slice(), irq.len() - 20);
    if irq_address < PAGE || irq_address >= 0x1_0000_0000_0000 {
        return Err(Error::EINVAL);
    }
    let mask: u32 = match adt_word(mask, Some(3)) {
        Err(e) => {
            return Err(e);
        },
        Ok(mask) => mask,
    };
    if mask == 0 || span < 0x100_8000 || base > u64::MAX - 0x100_0000 {
        return Err(Error::EINVAL);
    }
    let mcc: Vec<u64> = mcc_list(mask);
    proof {
        lemma_mask_has_bit(mask);
        lemma_mcc(mask, 32);
    }
    let declared = [
        window(0, irq_address - irq_address % 0x4000, 0x4000, 2),
        Register {
            slot: 3,
            physical: mcc[0],
            address: 0,
            size: mcc.len() as u32 * MCC_SIZE,
            stride: MCC_SIZE,
            relative: 0,
            flags: 2,
        },
        window(9, 0x3_803d_0000, 0x1000, 2),
        window(10, 0x3_803c_0000, 0x2000, 0),
        window(12, 0x5_0165_c000, 0x4000, 2),
        window(14, 0x3_8028_0000, 0x8000, 0),
        window(15, 0x3_8c84_0000, 0x24000, 0),
        relative_window(17, base, 0, 0x20000),
        window(22, base + 0x100_0000, 0x8000, 2),
        relative_window(26, base, 0xd0_4000, 0x8000),
        relative_window(27, base, 0xd0_d000, 0x1000),
        relative_window(28, base, 0xd5_8000, 0x8000),
        relative_window(29, base, 0xd1_0000, 0x4000),
        relative_window(31, base, 0xd4_0000, 0x4000),
        relative_window(32, base, 0xd6_0000, 0x8000),
        window(39, base + 0xe0_8000, 0x8000, 2),
        relative_window(40, base, 0xe1_c000, 0x4000),
        window(41, base + 0xe1_f800, 0x4000, 2),
    ];
    let ghost all = windows(base, irq_address, mcc@);
    assert(declared@ =~= all);
    let mut registers: Vec<Register> = Vec::new();
    let mut cursor: u64 = REGISTER_BASE;
    let mut i: usize = 0;
    while i < 18
        invariant
            i <= 18,
            base + 0x100_0000 <= u64::MAX,
            0 < mcc@.len() <= 32,
            all == windows(base, irq_address, mcc@),
            declared@ == all,
            cursor == window_base(all, i as int),
            registers@ == placed(all).take(i as int),
        decreases 18 - i,
    {
        proof {
            lemma_windows_fit(base, irq_address, mcc@, i as int);
            lemma_windows_fit(base, irq_address, mcc@, i + 1);
        }
        let mut register: Register = declared[i];
        let offset: u64 = register.physical % PAGE;
        register.address = cursor + offset;
        cursor = cursor + ((offset + register.size as u64 + PAGE - 1) / PAGE * PAGE + PAGE);
        registers.push(register);
        i += 1;
        assert(registers@ =~= placed(all).take(i as int));
    }
    assert(placed(all).take(18) =~= placed(all));
    proof {
        lemma_mcc_aligned(mask, 32);
        assert(is_placed_at(registers@, mcc@, base, irq_address));
    }
    Ok((registers, mcc))
}

impl Platform {
    /// Whether the board is the one that its description gives.
    pub open spec fn reads(self, inputs: BoardInputs) -> bool {
        &&& self.freq_a@ == inputs.freq_a->Ok_0@
        &&& self.freq_b@ == inputs.freq_b->Ok_0@
        &&& self.core_voltage@ == inputs.core_voltage->Ok_0@
        &&& self.memory_voltage@ == inputs.memory_voltage->Ok_0@
        &&& self.index_a@ == inputs.index_a->Ok_0@
        &&& self.index_b@ == inputs.index_b->Ok_0@
        &&& self.relative_a@ == inputs.relative_a->Ok_0@
        &&& self.relative_b@ == inputs.relative_b->Ok_0@
        &&& self.maximum_power == inputs.power->Ok_0@[10]
        &&& self.core_mask == inputs.core_mask->Ok_0
        &&& self.revision == inputs.revision->Ok_0
        &&& self.period_clocks == period_of(inputs)->Ok_0
        &&& self.period_ms == self.period_clocks / 24000
        &&& self.mcc@ == mcc_of(word_of(inputs.mcc_mask, Some(3))->Ok_0, 32)
        &&& self.registers@ == placed(
            windows(
                second_range(inputs.reg->Ok_0@).0 as u64,
                irq_address(inputs.irq->Ok_0@) as u64,
                self.mcc@,
            ),
        )
        &&& self.gpc == (word_of(inputs.no_gpc, Some(0))->Ok_0 == 0)
    }

    /// What holds of every board.
    pub open spec fn wf(self) -> bool {
        &&& self.period_ms > 0
        &&& self.period_ms == self.period_clocks / 24000
        &&& 0 < self.maximum_power <= i32::MAX
        &&& 0 < self.core_mask <= 0x3ff
        &&& self.registers@.len() == 18
        &&& forall|i: int| 0 <= i < 18 ==> (#[trigger] self.registers@[i]).slot <= 41
        &&& is_placed(self.registers@, self.mcc@)
    }

    /// A window has whole pages to itself between the two limits.
    pub proof fn lemma_window_room(self, n: int)
        requires
            self.wf(),
            0 <= n < 18,
        ensures
            ({
                let r = self.registers@[n];
                let offset = r.physical as int % 0x4000;
                &&& self.mcc@.len() <= 32
                &&& r.size > 0
                &&& REGISTER_BASE <= r.address - offset
                &&& (r.address - offset) % 0x4000 == 0
                &&& r.address + r.size + 0x4000 <= REGISTER_LIMIT
                &&& r.slot == 3 ==> offset == 0 && r.stride == 0x18000 && r.address + 32 * r.stride
                    <= REGISTER_LIMIT
            }),
    {
        let (base, irq) = choose|base: u64, irq: u64|
            #[trigger] is_placed_at(self.registers@, self.mcc@, base, irq);
        let all = windows(base, irq, self.mcc@);
        lemma_windows_fit(base, irq, self.mcc@, n);
        lemma_window_base_aligned(all, n);
        assert(self.registers@[n] == placed(all)[n]);
        assert(n != 1 ==> all[n].slot != 3);
        assert(all[n].size <= 0x30_0000);
    }

    /// Reads a board.
    pub fn new(inputs: &BoardInputs) -> (out: Result<Self, Error>)
        ensures
            match out {
                Ok(board) => refusal(*inputs) is None && board.reads(*inputs) && board.wf(),
                Err(e) => refusal(*inputs) == Some(e),
            },
    {
        let power: [u32; 11] = match ladder(&inputs.power) {
            Err(e) => {
                return Err(e);
            },
            Ok(power) => power,
        };
        let freq_a: [u32; 11] = match ladder(&inputs.freq_a) {
            Err(e) => {
                return Err(e);
            },
            Ok(freq_a) => freq_a,
        };
        let freq_b: [u32; 11] = match ladder(&inputs.freq_b) {
            Err(e) => {
                return Err(e);
            },
            Ok(freq_b) => freq_b,
        };
        if power[0] != 0 || power[10] == 0 || power[10] > i32::MAX as u32 || !rises(&power, false)
            || freq_a[0] != 0 || !rises(&freq_a, true) || freq_b[0] != 0 || !rises(&freq_b, true) {
            return Err(Error::EINVAL);
        }
        let period_clocks: u32 = match adt_word(&inputs.sample_clocks, None) {
            Ok(clocks) => clocks,
            Err(Error::ENOENT) => match adt_word(&inputs.sample_period, None) {
                Err(e) => {
                    return Err(e);
                },
                Ok(ms) => match ms.checked_mul(24000) {
                    None => {
                        return Err(Error::EINVAL);
                    },
                    Some(clocks) => clocks,
                },
            },
            Err(e) => {
                return Err(e);
            },
        };
        let period_ms: u32 = period_clocks / 24000;
        if period_ms == 0 {
            return Err(Error::EINVAL);
        }
        let core_mask: u32 = match inputs.core_mask {
            Err(e) => {
                return Err(e);
            },
            Ok(core_mask) => core_mask,
        };
        if core_mask == 0 || core_mask > 0x3ff {
            return Err(Error::EINVAL);
        }
        Self::new_states(inputs, power[10], freq_a, freq_b, core_mask, period_ms, period_clocks)
    }

    /// Reads the rest of a board.
    fn new_states(
        inputs: &BoardInputs,
        maximum_power: u32,
        freq_a: [u32; 11],
        freq_b: [u32; 11],
        core_mask: u32,
        period_ms: u32,
        period_clocks: u32,
    ) -> (out: Result<Self, Error>)
        ensures
            match out {
                Ok(board) => {
                    &&& ladder_error(inputs.core_voltage) is None
                    &&& ladder_error(inputs.memory_voltage) is None
                    &&& late_refusal(*inputs) is None
                    &&& board.freq_a == freq_a
                    &&& board.freq_b == freq_b
                    &&& board.maximum_power == maximum_power
                    &&& board.core_mask == core_mask
                    &&& board.period_ms == period_ms
                    &&& board.period_clocks == period_clocks
                    &&& board.core_voltage@ == inputs.core_voltage->Ok_0@
                    &&& board.memory_voltage@ == inputs.memory_voltage->Ok_0@
                    &&& board.index_a@ == inputs.index_a->Ok_0@
                    &&& board.index_b@ == inputs.index_b->Ok_0@
                    &&& board.relative_a@ == inputs.relative_a->Ok_0@
                    &&& board.relative_b@ == inputs.relative_b->Ok_0@
                    &&& board.revision == inputs.revision->Ok_0
                    &&& board.mcc@ == mcc_of(word_of(inputs.mcc_mask, Some(3))->Ok_0, 32)
                    &&& board.registers@ == placed(
                        windows(
                            second_range(inputs.reg->Ok_0@).0 as u64,
                            irq_address(inputs.irq->Ok_0@) as u64,
                            board.mcc@,
                        ),
                    )
                    &&& is_placed(board.registers@, board.mcc@)
                    &&& board.gpc == (word_of(inputs.no_gpc, Some(0))->Ok_0 == 0)
                },
                Err(e) => first(
                    ladder_error(inputs.core_voltage),
                    first(ladder_error(inputs.memory_voltage), late_refusal(*inputs)),
                ) == Some(e),
            },
    {
        let core_voltage: [u32; 11] = match ladder(&inputs.core_voltage) {
            Err(e) => {
                return Err(e);
            },
            Ok(values) => values,
        };
        let memory_voltage: [u32; 11] = match ladder(&inputs.memory_voltage) {
            Err(e) => {
                return Err(e);
            },
            Ok(values) => values,
        };
        let index_a: [u32; 11] = match ladder(&inputs.index_a) {
            Err(e) => {
                return Err(e);
            },
            Ok(values) => values,
        };
        let index_b: [u32; 11] = match ladder(&inputs.index_b) {
            Err(e) => {
                return Err(e);
            },
            Ok(values) => values,
        };
        let relative_a: [u32; 11] = match ladder(&inputs.relative_a) {
            Err(e) => {
                return Err(e);
            },
            Ok(values) => values,
        };
        let relative_b: [u32; 11] = match ladder(&inputs.relative_b) {
            Err(e) => {
                return Err(e);
            },
            Ok(values) => values,
        };
        let revision: u32 = match inputs.revision {
            Err(e) => {
                return Err(e);
            },
            Ok(revision) => revision,
        };
        let no_gpc: u32 = match adt_word(&inputs.no_gpc, Some(0)) {
            Err(e) => {
                return Err(e);
            },
            Ok(no_gpc) => no_gpc,
        };
        match build_registers(&inputs.reg, &inputs.irq, &inputs.mcc_mask) {
            Err(e) => Err(e),
            Ok((registers, mcc)) => Ok(
                Platform {
                    freq_a,
                    freq_b,
                    core_voltage,
                    memory_voltage,
                    index_a,
                    index_b,
                    relative_a,
                    relative_b,
                    maximum_power,
                    core_mask,
                    revision,
                    period_ms,
                    period_clocks,
                    registers,
                    mcc,
                    gpc: no_gpc == 0,
                },
            ),
        }
    }
}

/// A truth value as a word.
#[verifier::allow_in_spec]
pub fn flag(set: bool) -> u32
    returns
        (if set {
            1u32
        } else {
            0u32
        }),
{
    if set {
        1
    } else {
        0
    }
}

/// Consecutive words.
pub open spec fn words_at(offset: int, values: Seq<u32>) -> Seq<Field> {
    Seq::new(values.len(), |i: int| w32((offset + 4 * i) as usize, values[i]))
}

/// The same word several times.
pub open spec fn row_at(offset: int, count: nat, value: u32) -> Seq<Field> {
    Seq::new(count, |i: int| w32((offset + 4 * i) as usize, value))
}

/// Stores consecutive words.
pub fn put_words(out: &mut [u8], offset: usize, values: &[u32; 11])
    requires
        offset + 44 <= old(out)@.len(),
    ensures
        final(out)@ == bytes::overlay(old(out)@, words_at(offset as int, values@)),
{
    let size: usize = out.len();
    let fields = [
        w32(offset, values[0]),
        w32(offset + 4, values[1]),
        w32(offset + 8, values[2]),
        w32(offset + 12, values[3]),
        w32(offset + 16, values[4]),
        w32(offset + 20, values[5]),
        w32(offset + 24, values[6]),
        w32(offset + 28, values[7]),
        w32(offset + 32, values[8]),
        w32(offset + 36, values[9]),
        w32(offset + 40, values[10]),
    ];
    assert(fields@ =~= words_at(offset as int, values@));
    fill(out, &fields);
}

/// Stores the same word several times.
pub fn put_row(out: &mut [u8], offset: usize, count: usize, value: u32)
    requires
        offset + 4 * count <= old(out)@.len(),
    ensures
        final(out)@ == bytes::overlay(old(out)@, row_at(offset as int, count as nat, value)),
{
    let size: usize = out.len();
    let mut fields: Vec<Field> = Vec::new();
    let mut k: usize = 0;
    while k < count
        invariant
            k <= count,
            offset + 4 * count <= size,
            fields@ == row_at(offset as int, k as nat, value),
        decreases count - k,
    {
        fields.push(w32(offset + 4 * k, value));
        k += 1;
        assert(fields@ =~= row_at(offset as int, k as nat, value));
    }
    fill(out, fields.as_slice());
}

/// The fields of one window of registers.
pub open spec fn register_fields(r: Register) -> Seq<Field> {
    let offset = 0x640 + r.slot * 0x28;
    seq![
        w64(offset as usize, r.physical),
        w64((offset + 8) as usize, r.address),
        w32((offset + 0x10) as usize, r.size),
        w32((offset + 0x14) as usize, r.stride),
        w64((offset + 0x18) as usize, r.relative),
        w32((offset + 0x20) as usize, r.flags),
    ]
}

/// An image with the first windows of registers stored.
pub open spec fn with_registers(base: Seq<u8>, registers: Seq<Register>, n: int) -> Seq<u8>
    decreases n,
{
    if n <= 0 {
        base
    } else {
        bytes::overlay(
            with_registers(base, registers, n - 1),
            register_fields(registers[n - 1]),
        )
    }
}

/// An image with the first performance states stored: their frequencies, and rows of their core and
/// memory voltages.
pub open spec fn with_states(
    base: Seq<u8>,
    offset: int,
    repeats: nat,
    frequencies: Seq<u32>,
    core: Seq<u32>,
    memory: Seq<u32>,
    n: int,
) -> Seq<u8>
    decreases n,
{
    if n <= 0 {
        base
    } else {
        let s = n - 1;
        let before = with_states(base, offset, repeats, frequencies, core, memory, s);
        bytes::overlay(
            bytes::overlay(
                bytes::overlay(before, seq![w32((offset + s * 4) as usize, frequencies[s])]),
                row_at(offset + 0x40 + s * 0x40, repeats, core[s]),
            ),
            row_at(offset + 0x440 + s * 0x40, repeats, memory[s]),
        )
    }
}

/// Stores the performance states.
fn put_states(
    out: &mut [u8],
    offset: usize,
    repeats: usize,
    frequencies: &[u32; 11],
    core: &[u32; 11],
    memory: &[u32; 11],
)
    requires
        offset + 0x700 <= old(out)@.len(),
        repeats <= 16,
    ensures
        final(out)@.len() == old(out)@.len(),
        final(out)@ == with_states(
            old(out)@,
            offset as int,
            repeats as nat,
            frequencies@,
            core@,
            memory@,
            11,
        ),
{
    let ghost base = out@;
    let size: usize = out.len();
    let mut state: usize = 0;
    while state < 11
        invariant
            state <= 11,
            offset + 0x700 <= size,
            out@.len() == size,
            repeats <= 16,
            out@ == with_states(
                base,
                offset as int,
                repeats as nat,
                frequencies@,
                core@,
                memory@,
                state as int,
            ),
        decreases 11 - state,
    {
        put32(out, offset + state * 4, frequencies[state]);
        put_row(out, offset + 0x40 + state * 0x40, repeats, core[state]);
        put_row(out, offset + 0x440 + state * 0x40, repeats, memory[state]);
        state += 1;
    }
}

impl Platform {
    /// The single words of the hardware description.
    pub open spec fn hardware_words(self) -> Seq<Field> {
        seq![
            w32(0xe90, 0x8132),
            w32(0xe94, self.revision / 16),
            w32(0xe98, self.revision % 8),
            w32(0xea0, flag(self.gpc)),
            w32(0xeb8, 1),
            w32(0xec8, 1),
            w32(0xed0, 24000),
            w32(0xed8, self.period_ms),
            w32(0xee0, 1),
            w32(0xee4, 1),
            w32(0xee8, 1),
            w32(0xfc4, 10),
            w32(0x1cd8, 10),
            w32(0x2604, 1),
            w16(0x258e, 22),
            w32(0x2594, 1),
            w32(0x2598, 1),
            w32(0x259c, 1),
            w32(0x25a4, 1),
            w32(0x25a8, 1),
            w32(0x25ac, 1),
        ]
    }

    /// The hardware description.
    pub open spec fn hardware_image(self) -> Seq<u8> {
        let registers = with_registers(bytes::zeros(0x3db4), self.registers@, self.registers@.len() as int);
        let core = self.core_voltage@;
        let memory = self.memory_voltage@;
        let first = with_states(registers, 0xfc8, 16, self.freq_a@, core, memory, 11);
        let second = with_states(first, 0x1cdc, 1, self.freq_b@, core, memory, 11);
        let a = bytes::overlay(second, words_at(0x1808, self.freq_b@));
        let b = bytes::overlay(a, words_at(0x18c8, self.relative_a@));
        let c = bytes::overlay(b, words_at(0x1908, self.relative_b@));
        let d = bytes::overlay(c, words_at(0x19c8, self.index_a@));
        let e = bytes::overlay(d, words_at(0x1a08, self.index_b@));
        let f = bytes::overlay(e, row_at(0x1848, 11, ONE_POINT_ZERO_TWO));
        let g = bytes::overlay(f, self.hardware_words());
        bytes::overlay(g, row_at(0x25b4, 12, u32::MAX))
    }

    /// The hardware description that the firmware reads.
    pub fn hwdata(&self) -> (out: Vec<u8>)
        requires
            self.wf(),
        ensures
            out@ == self.hardware_image(),
            out@.len() == 0x3db4,
    {
        let mut buffer: Vec<u8> = zeroed(0x3db4);
        let out = buffer.as_mut_slice();
        let ghost base = out@;
        let mut i: usize = 0;
        while i < self.registers.len()
            invariant
                self.wf(),
                i <= self.registers@.len(),
                out@.len() == 0x3db4,
                out@ == with_registers(base, self.registers@, i as int),
            decreases self.registers@.len() - i,
        {
            let r: Register = self.registers[i];
            let offset: usize = 0x640 + r.slot * 0x28;
            let fields = [
                w64(offset, r.physical),
                w64(offset + 8, r.address),
                w32(offset + 0x10, r.size),
                w32(offset + 0x14, r.stride),
                w64(offset + 0x18, r.relative),
                w32(offset + 0x20, r.flags),
            ];
            assert(fields@ =~= register_fields(r));
            fill(out, &fields);
            i += 1;
        }
        put_states(out, 0xfc8, 16, &self.freq_a, &self.core_voltage, &self.memory_voltage);
        put_states(out, 0x1cdc, 1, &self.freq_b, &self.core_voltage, &self.memory_voltage);
        put_words(out, 0x1808, &self.freq_b);
        put_words(out, 0x18c8, &self.relative_a);
        put_words(out, 0x1908, &self.relative_b);
        put_words(out, 0x19c8, &self.index_a);
        put_words(out, 0x1a08, &self.index_b);
        put_row(out, 0x1848, 11, ONE_POINT_ZERO_TWO);
        let words = [
            w32(0xe90, 0x8132),
            w32(0xe94, self.revision / 16),
            w32(0xe98, self.revision % 8),
            w32(0xea0, flag(self.gpc)),
            w32(0xeb8, 1),
            w32(0xec8, 1),
            w32(0xed0, 24000),
            w32(0xed8, self.period_ms),
            w32(0xee0, 1),
            w32(0xee4, 1),
            w32(0xee8, 1),
            w32(0xfc4, 10),
            w32(0x1cd8, 10),
            w32(0x2604, 1),
            w16(0x258e, 22),
            w32(0x2594, 1),
            w32(0x2598, 1),
            w32(0x259c, 1),
            w32(0x25a4, 1),
            w32(0x25a8, 1),
            w32(0x25ac, 1),
        ];
        assert(words@ =~= self.hardware_words());
        fill(out, &words);
        put_row(out, 0x25b4, 12, u32::MAX);
        buffer
    }

    /// The fields of region C.
    pub open spec fn region_c_fields(self) -> Seq<Field> {
        seq![
            w32(0x78, 1),
            w32(0x7ec, 1),
            w32(0x7f0, 1),
            w32(0xe28, 3),
            w32(0xe2c, 1),
            w32(0x24, 4096),
            w32(0x998, 32),
            w32(0x99c, 8),
            w32(0x9a0, 256),
            w32(0x9a4, 1),
            w32(0x9c8, 64),
            w32(0x9cc, 64),
            w32(0x9d0, 2),
            w32(0x84, self.maximum_power),
            w32(0x88, 1000),
            w32(0x8c, 1000),
            w32(0x98, 1000),
            w16(0x54, 0xffff),
            w16(0x56, 40),
            w16(0x58, 0xffff),
        ]
    }

    /// Region C of the root descriptor.
    pub fn region_c(&self) -> (out: Vec<u8>)
        ensures
            out@ == bytes::image(0x4000, self.region_c_fields()),
    {
        let mut out: Vec<u8> = zeroed(0x4000);
        let fields = [
            w32(0x78, 1),
            w32(0x7ec, 1),
            w32(0x7f0, 1),
            w32(0xe28, 3),
            w32(0xe2c, 1),
            w32(0x24, 4096),
            w32(0x998, 32),
            w32(0x99c, 8),
            w32(0x9a0, 256),
            w32(0x9a4, 1),
            w32(0x9c8, 64),
            w32(0x9cc, 64),
            w32(0x9d0, 2),
            w32(0x84, self.maximum_power),
            w32(0x88, 1000),
            w32(0x8c, 1000),
            w32(0x98, 1000),
            w16(0x54, 0xffff),
            w16(0x56, 40),
            w16(0x58, 0xffff),
        ];
        assert(fields@ =~= self.region_c_fields());
        fill(out.as_mut_slice(), &fields);
        out
    }
}

} // verus!
