//! Little-endian byte images.
//!
//! Firmware objects are byte tables: an image of fixed size in which a number of fields stand at
//! given offsets. A field later in a table wins over an earlier one where the two overlap, and a
//! byte that no field covers keeps the value of the base image.
use vstd::prelude::*;

verus! {

/// One little-endian field of a byte image: the low `width` bytes of `value`, at `offset`.
#[derive(Clone, Copy, Debug, PartialEq, Eq)]
pub struct Field {
    pub offset: usize,
    pub width: usize,
    pub value: u64,
}

impl Field {
    /// Whether byte `i` of an image belongs to this field.
    pub open spec fn covers(self, i: int) -> bool {
        self.offset <= i < self.offset + self.width
    }

    /// Whether the field is of a supported width and lies inside an image of `size` bytes.
    pub open spec fn fits(self, size: nat) -> bool {
        self.width <= 8 && self.offset + self.width <= size
    }
}

/// A one byte field.
#[verifier::allow_in_spec]
pub fn w8(offset: usize, value: u8) -> Field
    returns
        (Field { offset, width: 1, value: value as u64 }),
{
    Field { offset, width: 1, value: value as u64 }
}

/// A two byte field.
#[verifier::allow_in_spec]
pub fn w16(offset: usize, value: u16) -> Field
    returns
        (Field { offset, width: 2, value: value as u64 }),
{
    Field { offset, width: 2, value: value as u64 }
}

/// A four byte field.
#[verifier::allow_in_spec]
pub fn w32(offset: usize, value: u32) -> Field
    returns
        (Field { offset, width: 4, value: value as u64 }),
{
    Field { offset, width: 4, value: value as u64 }
}

/// An eight byte field.
#[verifier::allow_in_spec]
pub fn w64(offset: usize, value: u64) -> Field
    returns
        (Field { offset, width: 8, value }),
{
    Field { offset, width: 8, value }
}

/// An address at a distance from another one.
#[verifier::allow_in_spec]
pub fn at(address: u64, distance: u64) -> u64
    requires
        address + distance <= u64::MAX,
    returns
        (address + distance) as u64,
{
    address + distance
}

/// The low half of a number.
#[verifier::allow_in_spec]
pub fn low32(value: u64) -> u32
    returns
        (value % 0x1_0000_0000) as u32,
{
    (value % 0x1_0000_0000) as u32
}

/// The high half of a number.
#[verifier::allow_in_spec]
pub fn high32(value: u64) -> u32
    returns
        (value / 0x1_0000_0000) as u32,
{
    (value / 0x1_0000_0000) as u32
}

/// Byte `k` of `value`, counted from the least significant one.
pub open spec fn byte_of(value: u64, k: int) -> u8 {
    ((value >> ((8 * k) as u64)) & 0xff) as u8
}

/// An image of `size` zero bytes.
pub open spec fn zeros(size: nat) -> Seq<u8> {
    Seq::new(size, |i: int| 0u8)
}

/// Byte `i` of `base` after the fields of `fields` were stored: the byte of the last field that
/// covers it, else the byte of `base`.
pub open spec fn byte_at(base: Seq<u8>, fields: Seq<Field>, i: int) -> u8
    decreases fields.len(),
{
    if fields.len() == 0 {
        base[i]
    } else if fields.last().covers(i) {
        byte_of(fields.last().value, i - fields.last().offset)
    } else {
        byte_at(base, fields.drop_last(), i)
    }
}

/// The image `base` with the fields of `fields` stored into it.
pub open spec fn overlay(base: Seq<u8>, fields: Seq<Field>) -> Seq<u8> {
    Seq::new(base.len(), |i: int| byte_at(base, fields, i))
}

/// The image of `size` bytes that holds the fields of `fields` and is zero elsewhere.
pub open spec fn image(size: nat, fields: Seq<Field>) -> Seq<u8> {
    overlay(zeros(size), fields)
}

/// The image `base` with the bytes of `block` stored at `offset`.
pub open spec fn place(base: Seq<u8>, offset: int, block: Seq<u8>) -> Seq<u8> {
    Seq::new(
        base.len(),
        |i: int|
            if offset <= i < offset + block.len() {
                block[i - offset]
            } else {
                base[i]
            },
    )
}

/// Whether every field of `fields` lies inside an image of `size` bytes.
pub open spec fn all_fit(fields: Seq<Field>, size: nat) -> bool {
    forall|k: int| 0 <= k < fields.len() ==> (#[trigger] fields[k]).fits(size)
}

/// Stores one field.
pub fn store(out: &mut [u8], field: Field)
    requires
        field.fits(old(out)@.len()),
    ensures
        final(out)@ == overlay(old(out)@, seq![field]),
{
    let ghost base = out@;
    let size: usize = out.len();
    let mut k: usize = 0;
    while k < field.width
        invariant
            field.fits(base.len()),
            k <= field.width,
            size == base.len(),
            out@.len() == base.len(),
            forall|i: int|
                0 <= i < base.len() ==> #[trigger] out@[i] == if field.offset <= i < field.offset
                    + k {
                    byte_of(field.value, i - field.offset)
                } else {
                    base[i]
                },
        decreases field.width - k,
    {
        out[field.offset + k] = ((field.value >> ((8 * k) as u64)) & 0xff) as u8;
        k = k + 1;
    }
    proof {
        reveal_with_fuel(byte_at, 2);
        assert(seq![field].last() == field);
        assert(seq![field].drop_last().len() == 0);
        assert(out@ =~= overlay(base, seq![field]));
    }
}

/// Storing one more field after a table of fields.
proof fn lemma_overlay_step(base: Seq<u8>, fields: Seq<Field>, field: Field)
    ensures
        overlay(overlay(base, fields), seq![field]) == overlay(base, fields.push(field)),
{
    let lhs = overlay(overlay(base, fields), seq![field]);
    let rhs = overlay(base, fields.push(field));
    assert(fields.push(field).drop_last() =~= fields);
    assert forall|i: int| 0 <= i < base.len() implies lhs[i] == rhs[i] by {
        reveal_with_fuel(byte_at, 2);
        assert(seq![field].last() == field);
        assert(seq![field].drop_last().len() == 0);
    }
    assert(lhs =~= rhs);
}

/// Stores a table of fields, in order.
pub fn fill(out: &mut [u8], fields: &[Field])
    requires
        all_fit(fields@, old(out)@.len()),
    ensures
        final(out)@ == overlay(old(out)@, fields@),
{
    let ghost base = out@;
    let mut k: usize = 0;
    assert(overlay(base, fields@.take(0)) =~= base);
    while k < fields.len()
        invariant
            k <= fields@.len(),
            all_fit(fields@, base.len()),
            out@ == overlay(base, fields@.take(k as int)),
        decreases fields@.len() - k,
    {
        let ghost before = fields@.take(k as int);
        store(out, fields[k]);
        proof {
            lemma_overlay_step(base, before, fields@[k as int]);
            assert(fields@.take(k + 1) =~= before.push(fields@[k as int]));
        }
        k = k + 1;
    }
    assert(fields@.take(k as int) =~= fields@);
}

/// The image of `N` bytes that holds a table of fields.
pub fn encode<const N: usize>(fields: &[Field]) -> (out: [u8; N])
    requires
        all_fit(fields@, N as nat),
    ensures
        out@ == image(N as nat, fields@),
{
    let mut out: [u8; N] = [0u8; N];
    assert(out@ =~= zeros(N as nat));
    fill(&mut out, fields);
    out
}

/// Sets all bytes to zero.
pub fn clear(out: &mut [u8])
    ensures
        final(out)@ == zeros(old(out)@.len()),
{
    let ghost base = out@;
    let size: usize = out.len();
    let mut k: usize = 0;
    while k < size
        invariant
            k <= size,
            size == base.len(),
            out@.len() == base.len(),
            forall|i: int| 0 <= i < k ==> #[trigger] out@[i] == 0,
        decreases size - k,
    {
        out[k] = 0;
        k += 1;
    }
    assert(out@ =~= zeros(base.len()));
}

/// Stores a block of bytes.
pub fn copy_in(out: &mut [u8], offset: usize, block: &[u8])
    requires
        offset + block@.len() <= old(out)@.len(),
    ensures
        final(out)@ == place(old(out)@, offset as int, block@),
{
    let ghost base = out@;
    let size: usize = out.len();
    let mut k: usize = 0;
    while k < block.len()
        invariant
            k <= block@.len(),
            size == base.len(),
            offset + block@.len() <= size,
            out@.len() == base.len(),
            forall|i: int|
                0 <= i < base.len() ==> #[trigger] out@[i] == if offset <= i < offset + k {
                    block@[i - offset]
                } else {
                    base[i]
                },
        decreases block@.len() - k,
    {
        out[offset + k] = block[k];
        k += 1;
    }
    assert(out@ =~= place(base, offset as int, block@));
}

/// The little-endian number in the two bytes at an offset.
pub open spec fn u16_in(bytes: Seq<u8>, offset: int) -> int {
    bytes[offset] + 0x100 * bytes[offset + 1]
}

/// The little-endian number in the four bytes at an offset.
pub open spec fn u32_in(bytes: Seq<u8>, offset: int) -> int {
    bytes[offset] + 0x100 * bytes[offset + 1] + 0x1_0000 * bytes[offset + 2] + 0x100_0000
        * bytes[offset + 3]
}

/// The little-endian number in the eight bytes at an offset.
pub open spec fn u64_in(bytes: Seq<u8>, offset: int) -> int {
    u32_in(bytes, offset) + 0x1_0000_0000 * u32_in(bytes, offset + 4)
}

/// Reads a two byte field.
pub fn get16(bytes: &[u8], offset: usize) -> (out: u16)
    requires
        offset + 2 <= bytes@.len(),
    ensures
        out == u16_in(bytes@, offset as int),
{
    bytes[offset] as u16 + 0x100 * bytes[offset + 1] as u16
}

/// Reads a four byte field.
pub fn get32(bytes: &[u8], offset: usize) -> (out: u32)
    requires
        offset + 4 <= bytes@.len(),
    ensures
        out == u32_in(bytes@, offset as int),
{
    bytes[offset] as u32 + 0x100 * bytes[offset + 1] as u32 + 0x1_0000 * bytes[offset + 2] as u32
        + 0x100_0000 * bytes[offset + 3] as u32
}

/// Reads an eight byte field.
pub fn get64(bytes: &[u8], offset: usize) -> (out: u64)
    requires
        offset + 8 <= bytes@.len(),
    ensures
        out == u64_in(bytes@, offset as int),
{
    let size: usize = bytes.len();
    assert(offset + 8 <= size);
    get32(bytes, offset) as u64 + 0x1_0000_0000 * get32(bytes, offset + 4) as u64
}

/// A number is put together again from its bytes.
proof fn lemma_bytes_of(v: u64)
    ensures
        v == byte_of(v, 0) + 0x100 * byte_of(v, 1) + 0x1_0000 * byte_of(v, 2) + 0x100_0000 * byte_of(
            v,
            3,
        ) + 0x1_0000_0000 * (byte_of(v, 4) + 0x100 * byte_of(v, 5) + 0x1_0000 * byte_of(v, 6)
            + 0x100_0000 * byte_of(v, 7)),
        v < 0x1_0000_0000 ==> byte_of(v, 4) == 0 && byte_of(v, 5) == 0 && byte_of(v, 6) == 0
            && byte_of(v, 7) == 0,
        v < 0x1_0000 ==> byte_of(v, 2) == 0 && byte_of(v, 3) == 0,
        v < 0x100 ==> byte_of(v, 1) == 0,
{
    let b0 = byte_of(v, 0);
    let b1 = byte_of(v, 1);
    let b2 = byte_of(v, 2);
    let b3 = byte_of(v, 3);
    let b4 = byte_of(v, 4);
    let b5 = byte_of(v, 5);
    let b6 = byte_of(v, 6);
    let b7 = byte_of(v, 7);
    assert(v == b0 + 0x100 * b1 + 0x1_0000 * b2 + 0x100_0000 * b3 + 0x1_0000_0000 * (b4 + 0x100 * b5
        + 0x1_0000 * b6 + 0x100_0000 * b7) && (v < 0x1_0000_0000 ==> b4 == 0 && b5 == 0 && b6 == 0
        && b7 == 0) && (v < 0x1_0000 ==> b2 == 0 && b3 == 0) && (v < 0x100 ==> b1 == 0))
        by (bit_vector)
        requires
            b0 == ((v >> 0) & 0xff) as u8,
            b1 == ((v >> 8) & 0xff) as u8,
            b2 == ((v >> 16) & 0xff) as u8,
            b3 == ((v >> 24) & 0xff) as u8,
            b4 == ((v >> 32) & 0xff) as u8,
            b5 == ((v >> 40) & 0xff) as u8,
            b6 == ((v >> 48) & 0xff) as u8,
            b7 == ((v >> 56) & 0xff) as u8,
    ;
}

/// Whether a field of a table is overwritten by none that comes after it.
pub open spec fn survives(fields: Seq<Field>, k: int) -> bool {
    forall|j: int|
        k < j < fields.len() ==> (#[trigger] fields[j]).offset + fields[j].width <= fields[k].offset
            || fields[k].offset + fields[k].width <= fields[j].offset
}

/// The bytes of a field that survives are those of its value.
pub proof fn lemma_bytes_survive(base: Seq<u8>, fields: Seq<Field>, k: int, i: int)
    requires
        0 <= k < fields.len(),
        survives(fields, k),
        fields[k].covers(i),
    ensures
        byte_at(base, fields, i) == byte_of(fields[k].value, i - fields[k].offset),
    decreases fields.len(),
{
    if k < fields.len() - 1 {
        let rest = fields.drop_last();
        assert(fields.last() == fields[fields.len() - 1]);
        assert(survives(rest, k)) by {
            assert forall|j: int| k < j < rest.len() implies (#[trigger] rest[j]).offset
                + rest[j].width <= rest[k].offset || rest[k].offset + rest[k].width
                <= rest[j].offset by {
                assert(rest[j] == fields[j]);
            }
        }
        lemma_bytes_survive(base, rest, k, i);
    }
}

/// What a read gives back of a write: a four byte field of a table that no later field overwrites is
/// read with the value it was written with.
pub proof fn lemma_reads_back_u32(base: Seq<u8>, fields: Seq<Field>, k: int)
    requires
        0 <= k < fields.len(),
        survives(fields, k),
        fields[k].width == 4,
        fields[k].value < 0x1_0000_0000,
        fields[k].fits(base.len()),
    ensures
        u32_in(overlay(base, fields), fields[k].offset as int) == fields[k].value,
{
    let f = fields[k];
    lemma_bytes_of(f.value);
    assert forall|i: int| f.covers(i) implies #[trigger] overlay(base, fields)[i] == byte_of(
        f.value,
        i - f.offset,
    ) by {
        lemma_bytes_survive(base, fields, k, i);
    }
}

/// What a read gives back of a write, for an eight byte field.
pub proof fn lemma_reads_back_u64(base: Seq<u8>, fields: Seq<Field>, k: int)
    requires
        0 <= k < fields.len(),
        survives(fields, k),
        fields[k].width == 8,
        fields[k].fits(base.len()),
    ensures
        u64_in(overlay(base, fields), fields[k].offset as int) == fields[k].value,
{
    let f = fields[k];
    lemma_bytes_of(f.value);
    assert forall|i: int| f.covers(i) implies #[trigger] overlay(base, fields)[i] == byte_of(
        f.value,
        i - f.offset,
    ) by {
        lemma_bytes_survive(base, fields, k, i);
    }
}

/// Whether two ranges of an image share a byte.
pub open spec fn meet(a: int, m: int, b: int, n: int) -> bool {
    a < b + n && b < a + m
}

/// The value that the first `n` fields of a table leave in a range of an image, where the last field that
/// meets the range is just that range.
pub open spec fn held(fields: Seq<Field>, n: int, offset: int, width: int) -> Option<u64>
    decreases n,
{
    if n <= 0 {
        None
    } else {
        let f = fields[n - 1];
        if f.offset == offset && f.width == width {
            Some(f.value)
        } else if meet(f.offset as int, f.width as int, offset, width) {
            None
        } else {
            held(fields, n - 1, offset, width)
        }
    }
}

/// Whether none of the fields `m..n` of a table meets a range.
pub open spec fn clear_of(fields: Seq<Field>, m: int, n: int, lo: int, hi: int) -> bool
    decreases n - m,
{
    n <= m || (!meet(fields[n - 1].offset as int, fields[n - 1].width as int, lo, hi - lo) && clear_of(
        fields,
        m,
        n - 1,
        lo,
        hi,
    ))
}

/// Fields that do not meet a range do not count for what is held in it.
pub proof fn lemma_clear_of(fields: Seq<Field>, m: int, n: int, lo: int, hi: int)
    requires
        m <= n,
        clear_of(fields, m, n, lo, hi),
    ensures
        forall|offset: int, width: int|
            lo <= offset && 0 < width && offset + width <= hi ==> #[trigger] held(fields, n, offset, width)
                == held(fields, m, offset, width),
    decreases n - m,
{
    if m < n {
        lemma_clear_of(fields, m, n - 1, lo, hi);
        assert forall|offset: int, width: int|
            lo <= offset && 0 < width && offset + width <= hi implies #[trigger] held(
            fields,
            n,
            offset,
            width,
        ) == held(fields, m, offset, width) by {
            if m > 0 || n > 0 {
                assert(held(fields, n - 1, offset, width) == held(fields, m, offset, width));
            }
        }
    }
}

/// The bytes of a range are those of what a table holds there.
proof fn lemma_held_bytes(base: Seq<u8>, fields: Seq<Field>, offset: int, width: int, i: int)
    requires
        held(fields, fields.len() as int, offset, width) is Some,
        offset <= i < offset + width,
    ensures
        byte_at(base, fields, i) == byte_of(
            held(fields, fields.len() as int, offset, width)->0,
            i - offset,
        ),
    decreases fields.len(),
{
    let f = fields.last();
    if !(f.offset == offset && f.width == width) {
        lemma_held_before(fields, fields.len() - 1, offset, width);
        lemma_held_bytes(base, fields.drop_last(), offset, width, i);
    }
}

proof fn lemma_held_before(fields: Seq<Field>, n: int, offset: int, width: int)
    requires
        n < fields.len(),
    ensures
        held(fields.drop_last(), n, offset, width) == held(fields, n, offset, width),
    decreases n,
{
    if n > 0 {
        lemma_held_before(fields, n - 1, offset, width);
    }
}

/// A read of an image gives what its table holds there.
pub proof fn lemma_held_u64(base: Seq<u8>, fields: Seq<Field>, offset: int)
    requires
        held(fields, fields.len() as int, offset, 8) is Some,
        0 <= offset,
        offset + 8 <= base.len(),
    ensures
        u64_in(overlay(base, fields), offset) == held(fields, fields.len() as int, offset, 8)->0,
{
    let v = held(fields, fields.len() as int, offset, 8)->0;
    lemma_bytes_of(v);
    assert forall|i: int| offset <= i < offset + 8 implies #[trigger] overlay(base, fields)[i] == byte_of(
        v,
        i - offset,
    ) by {
        lemma_held_bytes(base, fields, offset, 8, i);
    }
}

/// A read of an image gives what its table holds there, for a word.
pub proof fn lemma_held_u32(base: Seq<u8>, fields: Seq<Field>, offset: int)
    requires
        held(fields, fields.len() as int, offset, 4) is Some,
        held(fields, fields.len() as int, offset, 4)->0 < 0x1_0000_0000,
        0 <= offset,
        offset + 4 <= base.len(),
    ensures
        u32_in(overlay(base, fields), offset) == held(fields, fields.len() as int, offset, 4)->0,
{
    let v = held(fields, fields.len() as int, offset, 4)->0;
    lemma_bytes_of(v);
    assert forall|i: int| offset <= i < offset + 4 implies #[trigger] overlay(base, fields)[i] == byte_of(
        v,
        i - offset,
    ) by {
        lemma_held_bytes(base, fields, offset, 4, i);
    }
}

/// A read of an image gives what its table holds there, for half a word.
pub proof fn lemma_held_u16(base: Seq<u8>, fields: Seq<Field>, offset: int)
    requires
        held(fields, fields.len() as int, offset, 2) is Some,
        held(fields, fields.len() as int, offset, 2)->0 < 0x1_0000,
        0 <= offset,
        offset + 2 <= base.len(),
    ensures
        u16_in(overlay(base, fields), offset) == held(fields, fields.len() as int, offset, 2)->0,
{
    let v = held(fields, fields.len() as int, offset, 2)->0;
    lemma_bytes_of(v);
    lemma_held_bytes(base, fields, offset, 2, offset);
    lemma_held_bytes(base, fields, offset, 2, offset + 1);
}

/// A read of an image gives what its table holds there, for a byte.
pub proof fn lemma_held_u8(base: Seq<u8>, fields: Seq<Field>, offset: int)
    requires
        held(fields, fields.len() as int, offset, 1) is Some,
        held(fields, fields.len() as int, offset, 1)->0 < 0x100,
        0 <= offset < base.len(),
    ensures
        overlay(base, fields)[offset] == held(fields, fields.len() as int, offset, 1)->0,
{
    let v = held(fields, fields.len() as int, offset, 1)->0;
    lemma_bytes_of(v);
    lemma_held_bytes(base, fields, offset, 1, offset);
}

/// Whether one of the first `n` fields of a table covers a byte.
pub open spec fn touched(fields: Seq<Field>, n: int, i: int) -> bool
    decreases n,
{
    n > 0 && (fields[n - 1].covers(i) || touched(fields, n - 1, i))
}

/// A byte that no field covers is that of the base.
pub proof fn lemma_untouched(base: Seq<u8>, fields: Seq<Field>, i: int)
    requires
        0 <= i < base.len(),
        !touched(fields, fields.len() as int, i),
    ensures
        overlay(base, fields)[i] == base[i],
{
    lemma_untouched_upto(base, fields, i);
}

proof fn lemma_untouched_upto(base: Seq<u8>, fields: Seq<Field>, i: int)
    requires
        !touched(fields, fields.len() as int, i),
    ensures
        byte_at(base, fields, i) == base[i],
    decreases fields.len(),
{
    if fields.len() > 0 {
        lemma_touched_before(fields, fields.len() - 1, i);
        lemma_untouched_upto(base, fields.drop_last(), i);
    }
}

proof fn lemma_touched_before(fields: Seq<Field>, n: int, i: int)
    requires
        n < fields.len(),
    ensures
        touched(fields.drop_last(), n, i) == touched(fields, n, i),
    decreases n,
{
    if n > 0 {
        lemma_touched_before(fields, n - 1, i);
    }
}

/// A byte of a field that no later one covers is that of its value.
pub proof fn lemma_field_byte(base: Seq<u8>, fields: Seq<Field>, k: int, i: int)
    requires
        0 <= k < fields.len(),
        fields[k].covers(i),
        clear_of(fields, k + 1, fields.len() as int, i, i + 1),
    ensures
        byte_at(base, fields, i) == byte_of(fields[k].value, i - fields[k].offset),
    decreases fields.len(),
{
    if k < fields.len() - 1 {
        lemma_clear_before(fields, k + 1, fields.len() - 1, i, i + 1);
        lemma_field_byte(base, fields.drop_last(), k, i);
    }
}

proof fn lemma_clear_before(fields: Seq<Field>, m: int, n: int, lo: int, hi: int)
    requires
        0 <= m,
        n < fields.len(),
    ensures
        clear_of(fields.drop_last(), m, n, lo, hi) == clear_of(fields, m, n, lo, hi),
    decreases n - m,
{
    if m < n {
        lemma_clear_before(fields, m, n - 1, lo, hi);
    }
}

/// The low half of a field survives where later fields meet only the high half.
pub proof fn lemma_low_half(base: Seq<u8>, fields: Seq<Field>, k: int)
    requires
        0 <= k < fields.len(),
        fields[k].width == 8,
        fields[k].offset + 4 <= base.len(),
        clear_of(
            fields,
            k + 1,
            fields.len() as int,
            fields[k].offset as int,
            fields[k].offset + 4,
        ),
    ensures
        u32_in(overlay(base, fields), fields[k].offset as int) == fields[k].value % 0x1_0000_0000,
{
    let f = fields[k];
    assert forall|i: int| f.offset <= i < f.offset + 4 implies #[trigger] overlay(base, fields)[i]
        == byte_of(f.value, i - f.offset) by {
        lemma_narrower(fields, k + 1, fields.len() as int, f.offset as int, f.offset + 4, i);
        lemma_field_byte(base, fields, k, i);
    }
    lemma_low_bytes(f.value);
}

/// The low half of a number is put together from its low bytes.
proof fn lemma_low_bytes(v: u64)
    ensures
        v % 0x1_0000_0000 == byte_of(v, 0) + 0x100 * byte_of(v, 1) + 0x1_0000 * byte_of(v, 2) + 0x100_0000
            * byte_of(v, 3),
{
    lemma_bytes_of(v);
    let low = byte_of(v, 0) + 0x100 * byte_of(v, 1) + 0x1_0000 * byte_of(v, 2) + 0x100_0000 * byte_of(v, 3);
    let high = byte_of(v, 4) + 0x100 * byte_of(v, 5) + 0x1_0000 * byte_of(v, 6) + 0x100_0000 * byte_of(v, 7);
    assert(v == low + 0x1_0000_0000 * high);
}

proof fn lemma_narrower(fields: Seq<Field>, m: int, n: int, lo: int, hi: int, i: int)
    requires
        clear_of(fields, m, n, lo, hi),
        lo <= i < hi,
    ensures
        clear_of(fields, m, n, i, i + 1),
    decreases n - m,
{
    if m < n {
        lemma_narrower(fields, m, n - 1, lo, hi, i);
    }
}

/// What is stored at other places leaves a read as it was.
pub proof fn lemma_read_elsewhere(base: Seq<u8>, fields: Seq<Field>, offset: int)
    requires
        0 <= offset,
        offset + 8 <= base.len(),
        forall|i: int|
            offset <= i < offset + 8 ==> !#[trigger] touched(fields, fields.len() as int, i),
    ensures
        u64_in(overlay(base, fields), offset) == u64_in(base, offset),
        u32_in(overlay(base, fields), offset) == u32_in(base, offset),
        u32_in(overlay(base, fields), offset + 4) == u32_in(base, offset + 4),
{
    assert forall|i: int| offset <= i < offset + 8 implies #[trigger] overlay(base, fields)[i] == base[i] by {
        assert(!touched(fields, fields.len() as int, i));
        lemma_untouched(base, fields, i);
    }
}

} // verus!
