//! What the firmware reads of the description of the board.
use crate::bytes;
use crate::platform;
use crate::platform::{BoardInputs, Platform, Register};
use vstd::prelude::*;

verus! {

proof fn lemma_row_only(offset: int, count: nat, value: u32, n: int, i: int)
    requires
        0 <= offset,
        offset + 4 * count <= 0x1_0000,
        0 <= n <= count,
    ensures
        bytes::touched(platform::row_at(offset, count, value), n, i) ==> offset <= i < offset + 4 * n,
        platform::row_at(offset, count, value).len() == count,
    decreases n,
{
    if n > 0 {
        lemma_row_only(offset, count, value, n - 1, i);
    }
}

proof fn lemma_ladder_only(offset: int, values: Seq<u32>, n: int, i: int)
    requires
        0 <= offset,
        offset + 4 * values.len() <= 0x1_0000,
        0 <= n <= values.len(),
    ensures
        bytes::touched(platform::words_at(offset, values), n, i) ==> offset <= i < offset + 4 * n,
        platform::words_at(offset, values).len() == values.len(),
    decreases n,
{
    if n > 0 {
        lemma_ladder_only(offset, values, n - 1, i);
    }
}

/// Words behind each other are read back, each at its place.
pub proof fn lemma_ladder_read(base: Seq<u8>, offset: int, values: Seq<u32>, k: int)
    requires
        0 <= offset,
        offset + 4 * values.len() <= base.len() <= 0x1_0000,
        0 <= k < values.len(),
    ensures
        bytes::u32_in(bytes::overlay(base, platform::words_at(offset, values)), offset + 4 * k) == values[k],
{
    let fields = platform::words_at(offset, values);
    assert(fields[k] == bytes::w32((offset + 4 * k) as usize, values[k]));
    assert forall|j: int| k < j < fields.len() implies fields[k].offset + fields[k].width <= (
    #[trigger] fields[j]).offset by {}
    assert(bytes::survives(fields, k));
    bytes::lemma_reads_back_u32(base, fields, k);
}

/// A word that is repeated is read back at each place.
pub proof fn lemma_row_read(base: Seq<u8>, offset: int, count: nat, value: u32, k: int)
    requires
        0 <= offset,
        offset + 4 * count <= base.len() <= 0x1_0000,
        0 <= k < count,
    ensures
        bytes::u32_in(bytes::overlay(base, platform::row_at(offset, count, value)), offset + 4 * k) == value,
{
    let fields = platform::row_at(offset, count, value);
    assert(fields[k] == bytes::w32((offset + 4 * k) as usize, value));
    assert forall|j: int| k < j < fields.len() implies fields[k].offset + fields[k].width <= (
    #[trigger] fields[j]).offset by {}
    assert(bytes::survives(fields, k));
    bytes::lemma_reads_back_u32(base, fields, k);
}

/// The states of a table keep to its range: frequencies at its start, voltages of the core behind them and
/// those of the memory behind those.
#[verifier::rlimit(50)]
proof fn lemma_states_outside(
    base: Seq<u8>,
    offset: int,
    repeats: nat,
    frequencies: Seq<u32>,
    core: Seq<u32>,
    memory: Seq<u32>,
    n: int,
    i: int,
)
    requires
        0 <= n <= 11,
        repeats <= 16,
        0 <= offset,
        offset + 0x700 <= base.len() <= 0x1_0000,
        0 <= i < base.len(),
        ({
            ||| i < offset
            ||| offset + 4 * n <= i < offset + 0x40
            ||| offset + 0x40 + 0x40 * n <= i < offset + 0x440
            ||| offset + 0x440 + 0x40 * n <= i
        }),
    ensures
        platform::with_states(base, offset, repeats, frequencies, core, memory, n).len() == base.len(),
        platform::with_states(base, offset, repeats, frequencies, core, memory, n)[i] == base[i],
    decreases n,
{
    if n > 0 {
        let s = n - 1;
        lemma_states_outside(base, offset, repeats, frequencies, core, memory, s, i);
        let before = platform::with_states(base, offset, repeats, frequencies, core, memory, s);
        let one = seq![bytes::w32((offset + s * 4) as usize, frequencies[s])];
        let a = bytes::overlay(before, one);
        let row = platform::row_at(offset + 0x40 + s * 0x40, repeats, core[s]);
        let b = bytes::overlay(a, row);
        let last = platform::row_at(offset + 0x440 + s * 0x40, repeats, memory[s]);
        reveal_with_fuel(bytes::touched, 3);
        assert(one.len() == 1);
        bytes::lemma_untouched(before, one, i);
        lemma_row_only(offset + 0x40 + s * 0x40, repeats, core[s], repeats as int, i);
        bytes::lemma_untouched(a, row, i);
        lemma_row_only(offset + 0x440 + s * 0x40, repeats, memory[s], repeats as int, i);
        bytes::lemma_untouched(b, last, i);
    }
}

/// Each state is read back from a table: its frequency, and rows of its two voltages.
#[verifier::rlimit(50)]
pub proof fn lemma_state_read(
    base: Seq<u8>,
    offset: int,
    repeats: nat,
    frequencies: Seq<u32>,
    core: Seq<u32>,
    memory: Seq<u32>,
    n: int,
    s: int,
    k: int,
)
    requires
        0 <= s < n <= 11,
        0 <= k < repeats <= 16,
        0 <= offset,
        offset + 0x700 <= base.len() <= 0x1_0000,
    ensures
        ({
            let m = platform::with_states(base, offset, repeats, frequencies, core, memory, n);
            &&& m.len() == base.len()
            &&& bytes::u32_in(m, offset + 4 * s) == frequencies[s]
            &&& bytes::u32_in(m, offset + 0x40 + 0x40 * s + 4 * k) == core[s]
            &&& bytes::u32_in(m, offset + 0x440 + 0x40 * s + 4 * k) == memory[s]
        }),
    decreases n,
{
    let t = n - 1;
    let before = platform::with_states(base, offset, repeats, frequencies, core, memory, t);
    if t > s {
        lemma_state_read(base, offset, repeats, frequencies, core, memory, t, s, k);
    } else {
        lemma_states_outside(base, offset, repeats, frequencies, core, memory, t, base.len() - 1);
    }
    assert(before.len() == base.len());
    let one = seq![bytes::w32((offset + t * 4) as usize, frequencies[t])];
    let a = bytes::overlay(before, one);
    let row = platform::row_at(offset + 0x40 + t * 0x40, repeats, core[t]);
    let b = bytes::overlay(a, row);
    let last = platform::row_at(offset + 0x440 + t * 0x40, repeats, memory[t]);
    let all = bytes::overlay(b, last);
    assert(one.len() == 1);
    assert forall|i: int| 0 <= i < base.len() && !(offset + 4 * t <= i < offset + 4 * t + 4) implies #[trigger] a[i]
        == before[i] by {
        reveal_with_fuel(bytes::touched, 3);
        bytes::lemma_untouched(before, one, i);
    }
    assert forall|i: int|
        0 <= i < base.len() && !(offset + 0x40 + 0x40 * t <= i < offset + 0x80 + 0x40 * t) implies #[trigger] b[i]
        == a[i] by {
        lemma_row_only(offset + 0x40 + t * 0x40, repeats, core[t], repeats as int, i);
        bytes::lemma_untouched(a, row, i);
    }
    assert forall|i: int|
        0 <= i < base.len() && !(offset + 0x440 + 0x40 * t <= i < offset + 0x480 + 0x40 * t) implies #[trigger] all[i]
        == b[i] by {
        lemma_row_only(offset + 0x440 + t * 0x40, repeats, memory[t], repeats as int, i);
        bytes::lemma_untouched(b, last, i);
    }
    if t == s {
        assert(one[0] == bytes::w32((offset + 4 * s) as usize, frequencies[s]));
        assert(bytes::survives(one, 0));
        bytes::lemma_reads_back_u32(before, one, 0);
        lemma_row_read(a, offset + 0x40 + s * 0x40, repeats, core[s], k);
        lemma_row_read(b, offset + 0x440 + s * 0x40, repeats, memory[s], k);
    }
}

/// Registers whose slots rise are read back from a table of slots of 0x28 bytes, and the table keeps to its range.
#[verifier::rlimit(50)]
pub proof fn lemma_register_read(base: Seq<u8>, registers: Seq<Register>, n: int, k: int, i: int)
    requires
        0 <= k < n <= registers.len(),
        base.len() == 0x3db4,
        0 <= i < base.len(),
        forall|a: int| 0 <= a < registers.len() ==> (#[trigger] registers[a]).slot <= 41,
        forall|a: int, b: int|
            0 <= a < b < registers.len() ==> (#[trigger] registers[a]).slot < (#[trigger] registers[b]).slot,
    ensures
        ({
            let m = platform::with_registers(base, registers, n);
            let at = 0x640 + 0x28 * registers[k].slot;
            &&& m.len() == base.len()
            &&& bytes::u64_in(m, at) == registers[k].physical
            &&& bytes::u64_in(m, at + 8) == registers[k].address
            &&& bytes::u32_in(m, at + 0x10) == registers[k].size
            &&& bytes::u32_in(m, at + 0x14) == registers[k].stride
            &&& bytes::u64_in(m, at + 0x18) == registers[k].relative
            &&& bytes::u32_in(m, at + 0x20) == registers[k].flags
            &&& !(0x640 <= i < 0xcd0) ==> m[i] == base[i]
        }),
    decreases n,
{
    let r = registers[n - 1];
    let before = platform::with_registers(base, registers, n - 1);
    let fields = platform::register_fields(r);
    let all = bytes::overlay(before, fields);
    let at = 0x640 + 0x28 * r.slot;
    if k < n - 1 {
        lemma_register_read(base, registers, n - 1, k, i);
        assert(registers[k].slot < r.slot);
    } else {
        lemma_registers_outside(base, registers, n - 1, i);
    }
    assert(before.len() == base.len());
    assert(fields.len() == 6);
    assert forall|j: int| 0 <= j < base.len() && !(at <= j < at + 0x28) implies #[trigger] all[j] == before[j] by {
        reveal_with_fuel(bytes::touched, 8);
        bytes::lemma_untouched(before, fields, j);
    }
    if k == n - 1 {
        reveal_with_fuel(bytes::held, 8);
        bytes::lemma_held_u64(before, fields, at);
        bytes::lemma_held_u64(before, fields, at + 8);
        bytes::lemma_held_u32(before, fields, at + 0x10);
        bytes::lemma_held_u32(before, fields, at + 0x14);
        bytes::lemma_held_u64(before, fields, at + 0x18);
        bytes::lemma_held_u32(before, fields, at + 0x20);
    }
}

proof fn lemma_registers_outside(base: Seq<u8>, registers: Seq<Register>, n: int, i: int)
    requires
        0 <= n <= registers.len(),
        base.len() == 0x3db4,
        0 <= i < base.len(),
        forall|a: int| 0 <= a < registers.len() ==> (#[trigger] registers[a]).slot <= 41,
    ensures
        platform::with_registers(base, registers, n).len() == base.len(),
        !(0x640 <= i < 0xcd0) ==> platform::with_registers(base, registers, n)[i] == base[i],
    decreases n,
{
    if n > 0 {
        lemma_registers_outside(base, registers, n - 1, i);
        let before = platform::with_registers(base, registers, n - 1);
        let fields = platform::register_fields(registers[n - 1]);
        assert(registers[n - 1].slot <= 41);
        assert(fields.len() == 6);
        reveal_with_fuel(bytes::touched, 8);
        if !(0x640 <= i < 0xcd0) {
            bytes::lemma_untouched(before, fields, i);
        }
    }
}

#[verifier::rlimit(50)]
proof fn lemma_words_layer(base: Seq<u8>, p: Platform)
    requires
        base.len() == 0x3db4,
    ensures
        ({
            let m = bytes::overlay(base, p.hardware_words());
            &&& bytes::u32_in(m, 0xe90) == 0x8132
            &&& bytes::u32_in(m, 0xe94) == p.revision / 16
            &&& bytes::u32_in(m, 0xe98) == p.revision % 8
            &&& bytes::u32_in(m, 0xea0) == (if p.gpc { 1int } else { 0 })
            &&& bytes::u32_in(m, 0xeb8) == 1
            &&& bytes::u32_in(m, 0xec8) == 1
            &&& bytes::u32_in(m, 0xed0) == 24000
            &&& bytes::u32_in(m, 0xed8) == p.period_ms
            &&& bytes::u32_in(m, 0xee0) == 1
            &&& bytes::u32_in(m, 0xee4) == 1
            &&& bytes::u32_in(m, 0xee8) == 1
            &&& bytes::u32_in(m, 0xfc4) == 10
            &&& bytes::u32_in(m, 0x1cd8) == 10
            &&& bytes::u32_in(m, 0x2604) == 1
            &&& bytes::u16_in(m, 0x258e) == 22
            &&& bytes::u32_in(m, 0x2594) == 1
            &&& bytes::u32_in(m, 0x2598) == 1
            &&& bytes::u32_in(m, 0x259c) == 1
            &&& bytes::u32_in(m, 0x25a4) == 1
            &&& bytes::u32_in(m, 0x25a8) == 1
            &&& bytes::u32_in(m, 0x25ac) == 1
        }),
{
    let fields = p.hardware_words();
    assert(fields.len() == 21);
    reveal_with_fuel(bytes::held, 12);
    reveal_with_fuel(bytes::clear_of, 14);
    assert(bytes::clear_of(fields, 10, 21, 0xe90, 0xee8));
    bytes::lemma_clear_of(fields, 10, 21, 0xe90, 0xee8);
    bytes::lemma_held_u32(base, fields, 0xe90);
    bytes::lemma_held_u32(base, fields, 0xe94);
    bytes::lemma_held_u32(base, fields, 0xe98);
    bytes::lemma_held_u32(base, fields, 0xea0);
    bytes::lemma_held_u32(base, fields, 0xeb8);
    bytes::lemma_held_u32(base, fields, 0xec8);
    bytes::lemma_held_u32(base, fields, 0xed0);
    bytes::lemma_held_u32(base, fields, 0xed8);
    bytes::lemma_held_u32(base, fields, 0xee0);
    bytes::lemma_held_u32(base, fields, 0xee4);
    assert(bytes::clear_of(fields, 13, 21, 0xee8, 0x1cdc));
    bytes::lemma_clear_of(fields, 13, 21, 0xee8, 0x1cdc);
    bytes::lemma_held_u32(base, fields, 0xee8);
    bytes::lemma_held_u32(base, fields, 0xfc4);
    bytes::lemma_held_u32(base, fields, 0x1cd8);
    bytes::lemma_held_u32(base, fields, 0x2604);
    bytes::lemma_held_u16(base, fields, 0x258e);
    bytes::lemma_held_u32(base, fields, 0x2594);
    bytes::lemma_held_u32(base, fields, 0x2598);
    bytes::lemma_held_u32(base, fields, 0x259c);
    bytes::lemma_held_u32(base, fields, 0x25a4);
    bytes::lemma_held_u32(base, fields, 0x25a8);
    bytes::lemma_held_u32(base, fields, 0x25ac);
}

/// Whether a byte of the description belongs to its single words.
pub open spec fn in_words(i: int) -> bool {
    ||| 0xe90 <= i < 0xe9c
    ||| 0xea0 <= i < 0xea4
    ||| 0xeb8 <= i < 0xebc
    ||| 0xec8 <= i < 0xecc
    ||| 0xed0 <= i < 0xed4
    ||| 0xed8 <= i < 0xedc
    ||| 0xee0 <= i < 0xeec
    ||| 0xfc4 <= i < 0xfc8
    ||| 0x1cd8 <= i < 0x1cdc
    ||| 0x258e <= i < 0x2590
    ||| 0x2594 <= i < 0x25a0
    ||| 0x25a4 <= i < 0x25b0
    ||| 0x2604 <= i < 0x2608
}

proof fn lemma_words_only(p: Platform, i: int)
    ensures
        bytes::touched(p.hardware_words(), 21, i) ==> in_words(i),
        p.hardware_words().len() == 21,
{
    let fields = p.hardware_words();
    reveal_with_fuel(bytes::touched, 14);
    assert(bytes::touched(fields, 12, i) ==> in_words(i));
    assert(bytes::touched(fields, 21, i) ==> in_words(i));
}

/// The description before its single words are stored.
proof fn lemma_layers(p: Platform) -> (g: Seq<u8>)
    ensures
        p.hardware_image() == bytes::overlay(
            bytes::overlay(g, p.hardware_words()),
            platform::row_at(0x25b4, 12, u32::MAX),
        ),
        g.len() == 0x3db4,
        forall|i: int| 0 <= i < 0x3db4 && !in_words(i) && !(0x25b4 <= i < 0x25e4) ==> #[trigger] p.hardware_image()[i]
            == g[i],
        ({
            let registers = platform::with_registers(
                bytes::zeros(0x3db4),
                p.registers@,
                p.registers@.len() as int,
            );
            let core = p.core_voltage@;
            let memory = p.memory_voltage@;
            let first = platform::with_states(registers, 0xfc8, 16, p.freq_a@, core, memory, 11);
            let second = platform::with_states(first, 0x1cdc, 1, p.freq_b@, core, memory, 11);
            let a = bytes::overlay(second, platform::words_at(0x1808, p.freq_b@));
            let b = bytes::overlay(a, platform::words_at(0x18c8, p.relative_a@));
            let c = bytes::overlay(b, platform::words_at(0x1908, p.relative_b@));
            let d = bytes::overlay(c, platform::words_at(0x19c8, p.index_a@));
            let e = bytes::overlay(d, platform::words_at(0x1a08, p.index_b@));
            g == bytes::overlay(e, platform::row_at(0x1848, 11, 0x3f82_8f5c))
        }),
{
    let registers = platform::with_registers(bytes::zeros(0x3db4), p.registers@, p.registers@.len() as int);
    let core = p.core_voltage@;
    let memory = p.memory_voltage@;
    let first = platform::with_states(registers, 0xfc8, 16, p.freq_a@, core, memory, 11);
    let second = platform::with_states(first, 0x1cdc, 1, p.freq_b@, core, memory, 11);
    let a = bytes::overlay(second, platform::words_at(0x1808, p.freq_b@));
    let b = bytes::overlay(a, platform::words_at(0x18c8, p.relative_a@));
    let c = bytes::overlay(b, platform::words_at(0x1908, p.relative_b@));
    let d = bytes::overlay(c, platform::words_at(0x19c8, p.index_a@));
    let e = bytes::overlay(d, platform::words_at(0x1a08, p.index_b@));
    let g = bytes::overlay(e, platform::row_at(0x1848, 11, 0x3f82_8f5c));
    lemma_registers_length(bytes::zeros(0x3db4), p.registers@, p.registers@.len() as int);
    lemma_states_length(registers, 0xfc8, 16, p.freq_a@, core, memory, 11);
    lemma_states_length(first, 0x1cdc, 1, p.freq_b@, core, memory, 11);
    let words = bytes::overlay(g, p.hardware_words());
    let row = platform::row_at(0x25b4, 12, u32::MAX);
    assert forall|i: int| 0 <= i < 0x3db4 && !in_words(i) && !(0x25b4 <= i < 0x25e4) implies #[trigger] p.hardware_image()[i]
        == g[i] by {
        lemma_words_only(p, i);
        bytes::lemma_untouched(g, p.hardware_words(), i);
        lemma_row_only(0x25b4, 12, u32::MAX, 12, i);
        bytes::lemma_untouched(words, row, i);
    }
    g
}

proof fn lemma_registers_length(base: Seq<u8>, registers: Seq<Register>, n: int)
    requires
        0 <= n <= registers.len(),
    ensures
        platform::with_registers(base, registers, n).len() == base.len(),
    decreases n,
{
    if n > 0 {
        lemma_registers_length(base, registers, n - 1);
    }
}

proof fn lemma_states_length(
    base: Seq<u8>,
    offset: int,
    repeats: nat,
    frequencies: Seq<u32>,
    core: Seq<u32>,
    memory: Seq<u32>,
    n: int,
)
    requires
        0 <= n,
    ensures
        platform::with_states(base, offset, repeats, frequencies, core, memory, n).len() == base.len(),
    decreases n,
{
    if n > 0 {
        lemma_states_length(base, offset, repeats, frequencies, core, memory, n - 1);
    }
}

/// What the parts of the description that follow each other leave as it was.
#[verifier::rlimit(50)]
proof fn lemma_ladders_apart(p: Platform, i: int)
    requires
        0 <= i < 0x3db4,
    ensures
        ({
            let registers = platform::with_registers(
                bytes::zeros(0x3db4),
                p.registers@,
                p.registers@.len() as int,
            );
            let core = p.core_voltage@;
            let memory = p.memory_voltage@;
            let first = platform::with_states(registers, 0xfc8, 16, p.freq_a@, core, memory, 11);
            let second = platform::with_states(first, 0x1cdc, 1, p.freq_b@, core, memory, 11);
            let a = bytes::overlay(second, platform::words_at(0x1808, p.freq_b@));
            let b = bytes::overlay(a, platform::words_at(0x18c8, p.relative_a@));
            let c = bytes::overlay(b, platform::words_at(0x1908, p.relative_b@));
            let d = bytes::overlay(c, platform::words_at(0x19c8, p.index_a@));
            let e = bytes::overlay(d, platform::words_at(0x1a08, p.index_b@));
            let g = bytes::overlay(e, platform::row_at(0x1848, 11, 0x3f82_8f5c));
            &&& registers.len() == 0x3db4 && first.len() == 0x3db4 && second.len() == 0x3db4
            &&& 0x640 <= i < 0xcd0 ==> g[i] == registers[i]
            &&& 0xfc8 <= i < 0x16c8 ==> g[i] == first[i]
            &&& 0x1cdc <= i < 0x23dc ==> g[i] == second[i]
            &&& 0x1808 <= i < 0x1834 ==> g[i] == a[i]
            &&& 0x18c8 <= i < 0x18f4 ==> g[i] == b[i]
            &&& 0x1908 <= i < 0x1934 ==> g[i] == c[i]
            &&& 0x19c8 <= i < 0x19f4 ==> g[i] == d[i]
            &&& 0x1a08 <= i < 0x1a34 ==> g[i] == e[i]
        }),
{
    let registers = platform::with_registers(bytes::zeros(0x3db4), p.registers@, p.registers@.len() as int);
    let core = p.core_voltage@;
    let memory = p.memory_voltage@;
    let first = platform::with_states(registers, 0xfc8, 16, p.freq_a@, core, memory, 11);
    let second = platform::with_states(first, 0x1cdc, 1, p.freq_b@, core, memory, 11);
    let a = bytes::overlay(second, platform::words_at(0x1808, p.freq_b@));
    let b = bytes::overlay(a, platform::words_at(0x18c8, p.relative_a@));
    let c = bytes::overlay(b, platform::words_at(0x1908, p.relative_b@));
    let d = bytes::overlay(c, platform::words_at(0x19c8, p.index_a@));
    let e = bytes::overlay(d, platform::words_at(0x1a08, p.index_b@));
    lemma_registers_length(bytes::zeros(0x3db4), p.registers@, p.registers@.len() as int);
    lemma_states_length(registers, 0xfc8, 16, p.freq_a@, core, memory, 11);
    lemma_states_length(first, 0x1cdc, 1, p.freq_b@, core, memory, 11);
    if i < 0xfc8 {
        lemma_states_outside(registers, 0xfc8, 16, p.freq_a@, core, memory, 11, i);
    }
    if i < 0x1cdc {
        lemma_states_outside(first, 0x1cdc, 1, p.freq_b@, core, memory, 11, i);
    }
    lemma_ladder_only(0x1808, p.freq_b@, 11, i);
    lemma_ladder_only(0x18c8, p.relative_a@, 11, i);
    lemma_ladder_only(0x1908, p.relative_b@, 11, i);
    lemma_ladder_only(0x19c8, p.index_a@, 11, i);
    lemma_ladder_only(0x1a08, p.index_b@, 11, i);
    lemma_row_only(0x1848, 11, 0x3f82_8f5c, 11, i);
    if !(0x1808 <= i < 0x1834) {
        bytes::lemma_untouched(second, platform::words_at(0x1808, p.freq_b@), i);
    }
    if !(0x18c8 <= i < 0x18f4) {
        bytes::lemma_untouched(a, platform::words_at(0x18c8, p.relative_a@), i);
    }
    if !(0x1908 <= i < 0x1934) {
        bytes::lemma_untouched(b, platform::words_at(0x1908, p.relative_b@), i);
    }
    if !(0x19c8 <= i < 0x19f4) {
        bytes::lemma_untouched(c, platform::words_at(0x19c8, p.index_a@), i);
    }
    if !(0x1a08 <= i < 0x1a34) {
        bytes::lemma_untouched(d, platform::words_at(0x1a08, p.index_b@), i);
    }
    if !(0x1848 <= i < 0x1874) {
        bytes::lemma_untouched(e, platform::row_at(0x1848, 11, 0x3f82_8f5c), i);
    }
}

/// The firmware reads the states of the board: two tables of frequencies, each with the voltages of the core and
/// of the memory, sixteen times in the first table and once in the second.
#[verifier::rlimit(50)]
pub proof fn lemma_hardware_states(p: Platform, s: int, k: int)
    requires
        0 <= s < 11,
        0 <= k < 16,
    ensures
        ({
            let m = p.hardware_image();
            &&& m.len() == 0x3db4
            &&& bytes::u32_in(m, 0xfc8 + 4 * s) == p.freq_a@[s]
            &&& bytes::u32_in(m, 0x1008 + 0x40 * s + 4 * k) == p.core_voltage@[s]
            &&& bytes::u32_in(m, 0x1408 + 0x40 * s + 4 * k) == p.memory_voltage@[s]
            &&& bytes::u32_in(m, 0x1cdc + 4 * s) == p.freq_b@[s]
            &&& bytes::u32_in(m, 0x1d1c + 0x40 * s) == p.core_voltage@[s]
            &&& bytes::u32_in(m, 0x211c + 0x40 * s) == p.memory_voltage@[s]
        }),
{
    let m = p.hardware_image();
    let g = lemma_layers(p);
    let registers = platform::with_registers(bytes::zeros(0x3db4), p.registers@, p.registers@.len() as int);
    let core = p.core_voltage@;
    let memory = p.memory_voltage@;
    let first = platform::with_states(registers, 0xfc8, 16, p.freq_a@, core, memory, 11);
    let second = platform::with_states(first, 0x1cdc, 1, p.freq_b@, core, memory, 11);
    assert forall|i: int| 0xfc8 <= i < 0x16c8 implies #[trigger] m[i] == first[i] by {
        lemma_ladders_apart(p, i);
        assert(m[i] == g[i]);
    }
    assert forall|i: int| 0x1cdc <= i < 0x23dc implies #[trigger] m[i] == second[i] by {
        lemma_ladders_apart(p, i);
        assert(m[i] == g[i]);
    }
    lemma_registers_length(bytes::zeros(0x3db4), p.registers@, p.registers@.len() as int);
    lemma_states_length(registers, 0xfc8, 16, p.freq_a@, core, memory, 11);
    lemma_state_read(registers, 0xfc8, 16, p.freq_a@, core, memory, 11, s, k);
    lemma_state_read(first, 0x1cdc, 1, p.freq_b@, core, memory, 11, s, 0);
}

/// The firmware reads the ladders of the board: the second frequencies once more, the relative numbers and the
/// indices of both kinds, and a factor for each state.
#[verifier::rlimit(50)]
pub proof fn lemma_hardware_ladders(p: Platform, s: int)
    requires
        0 <= s < 11,
    ensures
        ({
            let m = p.hardware_image();
            &&& bytes::u32_in(m, 0x1808 + 4 * s) == p.freq_b@[s]
            &&& bytes::u32_in(m, 0x1848 + 4 * s) == 0x3f82_8f5c
            &&& bytes::u32_in(m, 0x18c8 + 4 * s) == p.relative_a@[s]
            &&& bytes::u32_in(m, 0x1908 + 4 * s) == p.relative_b@[s]
            &&& bytes::u32_in(m, 0x19c8 + 4 * s) == p.index_a@[s]
            &&& bytes::u32_in(m, 0x1a08 + 4 * s) == p.index_b@[s]
            &&& bytes::u32_in(m, 0x25b4 + 4 * s) == 0xffff_ffff
            &&& bytes::u32_in(m, 0x25e0) == 0xffff_ffff
        }),
{
    let m = p.hardware_image();
    let g = lemma_layers(p);
    lemma_ladders_apart(p, 0);
    let registers = platform::with_registers(bytes::zeros(0x3db4), p.registers@, p.registers@.len() as int);
    let core = p.core_voltage@;
    let memory = p.memory_voltage@;
    let first = platform::with_states(registers, 0xfc8, 16, p.freq_a@, core, memory, 11);
    let second = platform::with_states(first, 0x1cdc, 1, p.freq_b@, core, memory, 11);
    let a = bytes::overlay(second, platform::words_at(0x1808, p.freq_b@));
    let b = bytes::overlay(a, platform::words_at(0x18c8, p.relative_a@));
    let c = bytes::overlay(b, platform::words_at(0x1908, p.relative_b@));
    let d = bytes::overlay(c, platform::words_at(0x19c8, p.index_a@));
    let e = bytes::overlay(d, platform::words_at(0x1a08, p.index_b@));
    assert forall|i: int| 0x1808 <= i < 0x1834 implies #[trigger] m[i] == a[i] by {
        lemma_ladders_apart(p, i);
    }
    assert forall|i: int| 0x18c8 <= i < 0x18f4 implies #[trigger] m[i] == b[i] by {
        lemma_ladders_apart(p, i);
    }
    assert forall|i: int| 0x1908 <= i < 0x1934 implies #[trigger] m[i] == c[i] by {
        lemma_ladders_apart(p, i);
    }
    assert forall|i: int| 0x19c8 <= i < 0x19f4 implies #[trigger] m[i] == d[i] by {
        lemma_ladders_apart(p, i);
    }
    assert forall|i: int| 0x1a08 <= i < 0x1a34 implies #[trigger] m[i] == e[i] by {
        lemma_ladders_apart(p, i);
    }
    lemma_ladder_read(second, 0x1808, p.freq_b@, s);
    lemma_ladder_read(a, 0x18c8, p.relative_a@, s);
    lemma_ladder_read(b, 0x1908, p.relative_b@, s);
    lemma_ladder_read(c, 0x19c8, p.index_a@, s);
    lemma_ladder_read(d, 0x1a08, p.index_b@, s);
    lemma_row_read(e, 0x1848, 11, 0x3f82_8f5c, s);
    let words = bytes::overlay(g, p.hardware_words());
    lemma_row_read(words, 0x25b4, 12, u32::MAX, s);
    lemma_row_read(words, 0x25b4, 12, u32::MAX, 11);
}

/// The firmware reads each window of registers in its slot.
pub proof fn lemma_hardware_registers(p: Platform, base: u64, irq: u64, k: int)
    requires
        platform::is_placed_at(p.registers@, p.mcc@, base, irq),
        0 <= k < 18,
    ensures
        ({
            let m = p.hardware_image();
            let r = p.registers@[k];
            let at = 0x640 + 0x28 * r.slot;
            &&& bytes::u64_in(m, at) == r.physical
            &&& bytes::u64_in(m, at + 8) == r.address
            &&& bytes::u32_in(m, at + 0x10) == r.size
            &&& bytes::u32_in(m, at + 0x14) == r.stride
            &&& bytes::u64_in(m, at + 0x18) == r.relative
            &&& bytes::u32_in(m, at + 0x20) == r.flags
        }),
{
    let m = p.hardware_image();
    let g = lemma_layers(p);
    let w = platform::windows(base, irq, p.mcc@);
    let registers = platform::with_registers(bytes::zeros(0x3db4), p.registers@, p.registers@.len() as int);
    assert(w.len() == 18);
    assert forall|i: int| 0 <= i < 18 implies (#[trigger] p.registers@[i]).slot == w[i].slot by {}
    assert forall|i: int, j: int| 0 <= i < j < 18 implies (#[trigger] w[i]).slot < (#[trigger] w[j]).slot by {
        lemma_windows(base, irq, p.mcc@);
    }
    assert forall|i: int| 0 <= i < 18 implies (#[trigger] p.registers@[i]).slot <= 41 by {
        lemma_windows(base, irq, p.mcc@);
        assert(w[i].slot <= 41);
    }
    lemma_register_read(bytes::zeros(0x3db4), p.registers@, 18, k, 0);
    assert(p.registers@[k].slot <= 41);
    assert forall|i: int| 0x640 <= i < 0xcd0 implies #[trigger] m[i] == registers[i] by {
        lemma_ladders_apart(p, i);
        assert(m[i] == g[i]);
    }
}

/// Whether a window has a slot, a place, a size, an offset from the registers of the GPU, and flags, and is not
/// repeated.
pub open spec fn is_window(r: Register, slot: int, physical: int, size: int, relative: int, flags: int) -> bool {
    &&& r.slot == slot
    &&& r.physical == physical
    &&& r.size == size
    &&& r.stride == size
    &&& r.relative == relative
    &&& r.flags == flags
}

/// The single words of the description: the revision of the chip in two parts, the sample period, and constants.
pub proof fn lemma_hardware_words(p: Platform)
    ensures
        ({
            let m = p.hardware_image();
            &&& bytes::u32_in(m, 0xe90) == 0x8132
            &&& bytes::u32_in(m, 0xe94) == p.revision / 16
            &&& bytes::u32_in(m, 0xe98) == p.revision % 8
            &&& bytes::u32_in(m, 0xea0) == (if p.gpc { 1int } else { 0 })
            &&& bytes::u32_in(m, 0xeb8) == 1
            &&& bytes::u32_in(m, 0xec8) == 1
            &&& bytes::u32_in(m, 0xed0) == 24000
            &&& bytes::u32_in(m, 0xed8) == p.period_ms
            &&& bytes::u32_in(m, 0xee0) == 1
            &&& bytes::u32_in(m, 0xee4) == 1
            &&& bytes::u32_in(m, 0xee8) == 1
            &&& bytes::u32_in(m, 0xfc4) == 10
            &&& bytes::u32_in(m, 0x1cd8) == 10
            &&& bytes::u32_in(m, 0x2604) == 1
            &&& bytes::u16_in(m, 0x258e) == 22
            &&& bytes::u32_in(m, 0x2594) == 1
            &&& bytes::u32_in(m, 0x2598) == 1
            &&& bytes::u32_in(m, 0x259c) == 1
            &&& bytes::u32_in(m, 0x25a4) == 1
            &&& bytes::u32_in(m, 0x25a8) == 1
            &&& bytes::u32_in(m, 0x25ac) == 1
        }),
{
    let g = lemma_layers(p);
    lemma_words_layer(g, p);
    let part = bytes::overlay(g, p.hardware_words());
    let row = platform::row_at(0x25b4, 12, u32::MAX);
    assert forall|i: int| 0 <= i < 0x3db4 && in_words(i) implies #[trigger] p.hardware_image()[i] == part[i] by {
        lemma_row_only(0x25b4, 12, u32::MAX, 12, i);
        bytes::lemma_untouched(part, row, i);
    }
}

/// The third region starts the controllers with the power of the board.
#[verifier::rlimit(50)]
pub proof fn lemma_region(p: Platform)
    ensures
        ({
            let m = bytes::image(0x4000, p.region_c_fields());
            &&& bytes::u32_in(m, 0x78) == 1
            &&& bytes::u32_in(m, 0x7ec) == 1
            &&& bytes::u32_in(m, 0x7f0) == 1
            &&& bytes::u32_in(m, 0xe28) == 3
            &&& bytes::u32_in(m, 0xe2c) == 1
            &&& bytes::u32_in(m, 0x24) == 4096
            &&& bytes::u32_in(m, 0x998) == 32
            &&& bytes::u32_in(m, 0x99c) == 8
            &&& bytes::u32_in(m, 0x9a0) == 256
            &&& bytes::u32_in(m, 0x9a4) == 1
            &&& bytes::u32_in(m, 0x9c8) == 64
            &&& bytes::u32_in(m, 0x9cc) == 64
            &&& bytes::u32_in(m, 0x9d0) == 2
            &&& bytes::u32_in(m, 0x84) == p.maximum_power
            &&& bytes::u32_in(m, 0x88) == 1000
            &&& bytes::u32_in(m, 0x8c) == 1000
            &&& bytes::u32_in(m, 0x98) == 1000
            &&& bytes::u16_in(m, 0x54) == 0xffff
            &&& bytes::u16_in(m, 0x56) == 40
            &&& bytes::u16_in(m, 0x58) == 0xffff
        }),
{
    let fields = p.region_c_fields();
    let base = bytes::zeros(0x4000);
    assert(fields.len() == 20);
    reveal_with_fuel(bytes::held, 12);
    reveal_with_fuel(bytes::clear_of, 14);
    assert(bytes::clear_of(fields, 1, 13, 0x78, 0x7c));
    assert(bytes::clear_of(fields, 1, 20, 0x78, 0x7c));
    bytes::lemma_clear_of(fields, 1, 20, 0x78, 0x7c);
    bytes::lemma_held_u32(base, fields, 0x78);
    assert(bytes::clear_of(fields, 3, 15, 0x7ec, 0x7f4));
    assert(bytes::clear_of(fields, 3, 20, 0x7ec, 0x7f4));
    bytes::lemma_clear_of(fields, 3, 20, 0x7ec, 0x7f4);
    bytes::lemma_held_u32(base, fields, 0x7ec);
    bytes::lemma_held_u32(base, fields, 0x7f0);
    assert(bytes::clear_of(fields, 5, 17, 0xe28, 0xe30));
    assert(bytes::clear_of(fields, 5, 20, 0xe28, 0xe30));
    bytes::lemma_clear_of(fields, 5, 20, 0xe28, 0xe30);
    bytes::lemma_held_u32(base, fields, 0xe28);
    bytes::lemma_held_u32(base, fields, 0xe2c);
    assert(bytes::clear_of(fields, 6, 18, 0x24, 0x28));
    assert(bytes::clear_of(fields, 6, 20, 0x24, 0x28));
    bytes::lemma_clear_of(fields, 6, 20, 0x24, 0x28);
    bytes::lemma_held_u32(base, fields, 0x24);
    assert(bytes::clear_of(fields, 13, 20, 0x998, 0x9d4));
    bytes::lemma_clear_of(fields, 13, 20, 0x998, 0x9d4);
    bytes::lemma_held_u32(base, fields, 0x998);
    bytes::lemma_held_u32(base, fields, 0x99c);
    bytes::lemma_held_u32(base, fields, 0x9a0);
    bytes::lemma_held_u32(base, fields, 0x9a4);
    bytes::lemma_held_u32(base, fields, 0x9c8);
    bytes::lemma_held_u32(base, fields, 0x9cc);
    bytes::lemma_held_u32(base, fields, 0x9d0);
    bytes::lemma_held_u32(base, fields, 0x84);
    bytes::lemma_held_u32(base, fields, 0x88);
    bytes::lemma_held_u32(base, fields, 0x8c);
    bytes::lemma_held_u32(base, fields, 0x98);
    bytes::lemma_held_u16(base, fields, 0x54);
    bytes::lemma_held_u16(base, fields, 0x56);
    bytes::lemma_held_u16(base, fields, 0x58);
}

/// The rest of the third region is zero.
pub proof fn lemma_region_rest(p: Platform, i: int)
    requires
        0 <= i < 0x4000,
        !(0x24 <= i < 0x28),
        !(0x54 <= i < 0x5a),
        !(0x78 <= i < 0x7c),
        !(0x84 <= i < 0x90),
        !(0x98 <= i < 0x9c),
        !(0x7ec <= i < 0x7f4),
        !(0x998 <= i < 0x9a8),
        !(0x9c8 <= i < 0x9d4),
        !(0xe28 <= i < 0xe30),
    ensures
        bytes::image(0x4000, p.region_c_fields())[i] == 0,
{
    let fields = p.region_c_fields();
    assert(fields.len() == 20);
    reveal_with_fuel(bytes::touched, 14);
    assert(!bytes::touched(fields, 12, i));
    assert(!bytes::touched(fields, 20, i));
    bytes::lemma_untouched(bytes::zeros(0x4000), fields, i);
}

/// The windows of registers, by their places in the list: the slot in which the firmware looks for each, where it
/// lies, how large it is, and whether the firmware may write it.
pub proof fn lemma_windows(base: u64, irq: u64, mcc: Seq<u64>)
    requires
        base + 0x100_0000 <= u64::MAX,
        0 < mcc.len() <= 32,
    ensures
        ({
            let w = platform::windows(base, irq, mcc);
            &&& w.len() == 18
            &&& is_window(w[0], 0, irq - irq % 0x4000, 0x4000, 0, 2)
            &&& w[1].slot == 3 && w[1].physical == mcc[0] && w[1].size == 0x1_8000 * mcc.len()
            &&& w[1].stride == 0x1_8000 && w[1].relative == 0 && w[1].flags == 2
            &&& is_window(w[2], 9, 0x3_803d_0000, 0x1000, 0, 2)
            &&& is_window(w[3], 10, 0x3_803c_0000, 0x2000, 0, 0)
            &&& is_window(w[4], 12, 0x5_0165_c000, 0x4000, 0, 2)
            &&& is_window(w[5], 14, 0x3_8028_0000, 0x8000, 0, 0)
            &&& is_window(w[6], 15, 0x3_8c84_0000, 0x24000, 0, 0)
            &&& is_window(w[7], 17, base + 0, 0x20000, 0, 2)
            &&& is_window(w[8], 22, base + 0x100_0000, 0x8000, 0, 2)
            &&& is_window(w[9], 26, base + 0xd0_4000, 0x8000, 0xd0_4000, 2)
            &&& is_window(w[10], 27, base + 0xd0_d000, 0x1000, 0xd0_d000, 2)
            &&& is_window(w[11], 28, base + 0xd5_8000, 0x8000, 0xd5_8000, 2)
            &&& is_window(w[12], 29, base + 0xd1_0000, 0x4000, 0xd1_0000, 2)
            &&& is_window(w[13], 31, base + 0xd4_0000, 0x4000, 0xd4_0000, 2)
            &&& is_window(w[14], 32, base + 0xd6_0000, 0x8000, 0xd6_0000, 2)
            &&& is_window(w[15], 39, base + 0xe0_8000, 0x8000, 0, 2)
            &&& is_window(w[16], 40, base + 0xe1_c000, 0x4000, 0xe1_c000, 2)
            &&& is_window(w[17], 41, base + 0xe1_f800, 0x4000, 0, 2)
        }),
{
}

/// A window keeps its place inside of its page, and all else but its address, when it is placed.
pub proof fn lemma_window_placed(windows: Seq<Register>, i: int)
    requires
        0 <= i < windows.len(),
        0 <= platform::window_base(windows, i),
        platform::window_base(windows, i) + 0x4000 <= u64::MAX,
        platform::window_base(windows, i) % 0x4000 == 0,
    ensures
        ({
            let r = platform::placed(windows)[i];
            &&& r.address % 0x4000 == r.physical % 0x4000
            &&& r.address - r.address % 0x4000 == platform::window_base(windows, i)
            &&& r == (Register { address: r.address, ..windows[i] })
        }),
{
}

/// Windows follow each other with a free page between them.
pub proof fn lemma_window_spans(windows: Seq<Register>, n: int)
    requires
        0 <= n < windows.len(),
    ensures
        ({
            let start = platform::window_base(windows, n);
            let next = platform::window_base(windows, n + 1);
            let end = start + windows[n].physical % 0x4000 + windows[n].size;
            &&& end + 0x4000 <= next < end + 0x8000
            &&& (next - start) % 0x4000 == 0
        }),
{
}

/// Memory controllers are those whose bits are set, in order, 0x200_0000 bytes apart.
pub proof fn lemma_controllers(mask: u32, n: nat, k: u32)
    requires
        n <= 32,
        k < 32,
    ensures
        platform::mcc_of(mask, n).contains((platform::MCC_BASE + k * 0x200_0000) as u64) <==> k < n && mask & (1u32
            << k) != 0,
        forall|j: int|
            0 <= j < platform::mcc_of(mask, n).len() ==> #[trigger] platform::mcc_of(mask, n)[j]
                < platform::MCC_BASE + n * 0x200_0000,
        forall|i: int, j: int|
            0 <= i < j < platform::mcc_of(mask, n).len() ==> #[trigger] platform::mcc_of(mask, n)[i]
                < #[trigger] platform::mcc_of(mask, n)[j],
    decreases n,
{
    let all = platform::mcc_of(mask, n);
    let item = (platform::MCC_BASE + k * 0x200_0000) as u64;
    if n > 0 {
        lemma_controllers(mask, (n - 1) as nat, k);
        let before = platform::mcc_of(mask, (n - 1) as nat);
        if mask & (1u32 << ((n - 1) as u32)) != 0 {
            let last = (platform::MCC_BASE + (n - 1) * 0x200_0000) as u64;
            assert(all == before.push(last));
            assert(all[before.len() as int] == last);
            assert forall|j: int| 0 <= j < before.len() implies #[trigger] all[j] == before[j] by {}
            if before.contains(item) {
                let j = choose|j: int| 0 <= j < before.len() && before[j] == item;
                assert(all[j] == item);
            }
            if all.contains(item) && k != n - 1 {
                let j = choose|j: int| 0 <= j < all.len() && all[j] == item;
                assert(before[j] == item);
            }
        }
    }
}

/// What the firmware reads of a board is what the description of the board says of it.
pub proof fn lemma_board_told(p: Platform, inputs: BoardInputs, s: int)
    requires
        p.reads(inputs),
        0 <= s < 11,
        inputs.core_mask is Ok,
    ensures
        ({
            let m = p.hardware_image();
            let c = bytes::image(0x4000, p.region_c_fields());
            &&& bytes::u32_in(m, 0xfc8 + 4 * s) == inputs.freq_a->Ok_0@[s]
            &&& bytes::u32_in(m, 0x1cdc + 4 * s) == inputs.freq_b->Ok_0@[s]
            &&& bytes::u32_in(m, 0x1008 + 0x40 * s) == inputs.core_voltage->Ok_0@[s]
            &&& bytes::u32_in(m, 0x1408 + 0x40 * s) == inputs.memory_voltage->Ok_0@[s]
            &&& bytes::u32_in(m, 0x18c8 + 4 * s) == inputs.relative_a->Ok_0@[s]
            &&& bytes::u32_in(m, 0x1908 + 4 * s) == inputs.relative_b->Ok_0@[s]
            &&& bytes::u32_in(m, 0x19c8 + 4 * s) == inputs.index_a->Ok_0@[s]
            &&& bytes::u32_in(m, 0x1a08 + 4 * s) == inputs.index_b->Ok_0@[s]
            &&& bytes::u32_in(m, 0xe94) == inputs.revision->Ok_0 / 16
            &&& bytes::u32_in(m, 0xe98) == inputs.revision->Ok_0 % 8
            &&& bytes::u32_in(m, 0xed8) == platform::period_of(inputs)->Ok_0 / 24_000
            &&& bytes::u32_in(m, 0xea0) == if platform::word_of(inputs.no_gpc, Some(0))->Ok_0 == 0 {
                1int
            } else {
                0
            }
            &&& bytes::u32_in(c, 0x84) == inputs.power->Ok_0@[10]
            &&& p.core_mask == inputs.core_mask->Ok_0
        }),
{
    lemma_hardware_states(p, s, 0);
    lemma_hardware_ladders(p, s);
    lemma_hardware_words(p);
    lemma_region(p);
}

/// The windows of a board lie around the second range of its registers, its interrupt controller and its memory
/// controllers.
pub proof fn lemma_board_windows(p: Platform, inputs: BoardInputs, k: int)
    requires
        p.reads(inputs),
        0 <= k < 18,
    ensures
        ({
            let w = platform::windows(
                platform::second_range(inputs.reg->Ok_0@).0 as u64,
                platform::irq_address(inputs.irq->Ok_0@) as u64,
                platform::mcc_of(platform::word_of(inputs.mcc_mask, Some(3))->Ok_0, 32),
            );
            &&& p.registers@.len() == 18
            &&& p.registers@[k] == (Register { address: p.registers@[k].address, ..w[k] })
        }),
{
    assert(platform::windows(
        platform::second_range(inputs.reg->Ok_0@).0 as u64,
        platform::irq_address(inputs.irq->Ok_0@) as u64,
        p.mcc@,
    ).len() == 18);
}

} // verus!
