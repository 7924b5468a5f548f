//! Fixed-width integers and booleans: big-endian encodings.

use vstd::prelude::*;
use crate::ser::{Cursor, Deserialize, RoundTrip, SerializationError, Serialize, advanced};

verus! {

/// Big-endian bytes of a 16-bit pattern.
pub open spec fn be16(x: u16) -> Seq<u8> {
    seq![(x >> 8u16) as u8, x as u8]
}

/// Big-endian bytes of a 32-bit pattern.
pub open spec fn be32(x: u32) -> Seq<u8> {
    seq![(x >> 24u32) as u8, (x >> 16u32) as u8, (x >> 8u32) as u8, x as u8]
}

/// Big-endian bytes of a 64-bit pattern.
pub open spec fn be64(x: u64) -> Seq<u8> {
    seq![
        (x >> 56u64) as u8,
        (x >> 48u64) as u8,
        (x >> 40u64) as u8,
        (x >> 32u64) as u8,
        (x >> 24u64) as u8,
        (x >> 16u64) as u8,
        (x >> 8u64) as u8,
        x as u8,
    ]
}

/// The 16-bit pattern of the first two bytes of `s`, big-endian.
pub open spec fn from_be16(s: Seq<u8>) -> u16 {
    ((s[0] as u16) << 8u16) | (s[1] as u16)
}

/// The 32-bit pattern of the first four bytes of `s`, big-endian.
pub open spec fn from_be32(s: Seq<u8>) -> u32 {
    ((s[0] as u32) << 24u32) | ((s[1] as u32) << 16u32) | ((s[2] as u32) << 8u32) | (s[3] as u32)
}

/// The 64-bit pattern of the first eight bytes of `s`, big-endian.
pub open spec fn from_be64(s: Seq<u8>) -> u64 {
    ((s[0] as u64) << 56u64) | ((s[1] as u64) << 48u64) | ((s[2] as u64) << 40u64) | ((s[3] as u64)
        << 32u64) | ((s[4] as u64) << 24u64) | ((s[5] as u64) << 16u64) | ((s[6] as u64) << 8u64)
        | (s[7] as u64)
}

/// Big-endian bytes of a 128-bit pattern: the high half, then the low half.
pub open spec fn be128(x: u128) -> Seq<u8> {
    be64((x >> 64u128) as u64) + be64(x as u64)
}

/// The 128-bit pattern of the first sixteen bytes of `s`, big-endian.
pub open spec fn from_be128(s: Seq<u8>) -> u128 {
    ((from_be64(s) as u128) << 64u128) | (from_be64(s.skip(8)) as u128)
}

/// Decoding `width` bytes: the front of `data` or an end-of-input error.
pub open spec fn fixed_width<T>(data: Seq<u8>, width: int, value: T) -> Result<(T, int), SerializationError> {
    if data.len() < width {
        Err(SerializationError::UnexpectedEof)
    } else {
        Ok((value, width))
    }
}

/// Reinterpreting a 32-bit value as unsigned and back gives it unchanged.
pub proof fn lemma_i32_bits(x: i32)
    ensures
        (x as u32) as i32 == x,
{
    assert((x as u32) as i32 == x) by (bit_vector);
}

/// Reinterpreting a 64-bit value as unsigned and back gives it unchanged.
pub proof fn lemma_i64_bits(x: i64)
    ensures
        (x as u64) as i64 == x,
{
    assert((x as u64) as i64 == x) by (bit_vector);
}

/// Reading back big-endian bytes gives the pattern that was written.
pub proof fn lemma_be16_roundtrip(x: u16, rest: Seq<u8>)
    ensures
        from_be16(be16(x) + rest) == x,
        (be16(x) + rest).len() >= 2,
{
    let s = be16(x) + rest;
    assert(s[0] == (x >> 8u16) as u8 && s[1] == x as u8);
    assert(((((x >> 8u16) as u8) as u16) << 8u16) | ((x as u8) as u16) == x) by (bit_vector);
}

/// Reading back big-endian bytes gives the pattern that was written.
pub proof fn lemma_be32_roundtrip(x: u32, rest: Seq<u8>)
    ensures
        from_be32(be32(x) + rest) == x,
        (be32(x) + rest).len() >= 4,
{
    let s = be32(x) + rest;
    assert(s[0] == (x >> 24u32) as u8 && s[1] == (x >> 16u32) as u8 && s[2] == (x >> 8u32) as u8
        && s[3] == x as u8);
    assert(((((x >> 24u32) as u8) as u32) << 24u32) | ((((x >> 16u32) as u8) as u32) << 16u32) | ((((x
        >> 8u32) as u8) as u32) << 8u32) | ((x as u8) as u32) == x) by (bit_vector);
}

/// Reading back big-endian bytes gives the pattern that was written.
pub proof fn lemma_be64_roundtrip(x: u64, rest: Seq<u8>)
    ensures
        from_be64(be64(x) + rest) == x,
        (be64(x) + rest).len() >= 8,
{
    let s = be64(x) + rest;
    assert(s[0] == (x >> 56u64) as u8 && s[1] == (x >> 48u64) as u8 && s[2] == (x >> 40u64) as u8
        && s[3] == (x >> 32u64) as u8 && s[4] == (x >> 24u64) as u8 && s[5] == (x >> 16u64) as u8
        && s[6] == (x >> 8u64) as u8 && s[7] == x as u8);
    assert(((((x >> 56u64) as u8) as u64) << 56u64) | ((((x >> 48u64) as u8) as u64) << 48u64) | ((((x
        >> 40u64) as u8) as u64) << 40u64) | ((((x >> 32u64) as u8) as u64) << 32u64) | ((((x
        >> 24u64) as u8) as u64) << 24u64) | ((((x >> 16u64) as u8) as u64) << 16u64) | ((((x
        >> 8u64) as u8) as u64) << 8u64) | ((x as u8) as u64) == x) by (bit_vector);
}

/// Reading back big-endian bytes gives the pattern that was written.
pub proof fn lemma_be128_roundtrip(x: u128, rest: Seq<u8>)
    ensures
        from_be128(be128(x) + rest) == x,
        (be128(x) + rest).len() >= 16,
{
    let hi = (x >> 64u128) as u64;
    let lo = x as u64;
    let s = be128(x) + rest;
    lemma_be64_roundtrip(hi, be64(lo) + rest);
    lemma_be64_roundtrip(lo, rest);
    assert(s =~= be64(hi) + (be64(lo) + rest));
    assert(s.skip(8) =~= be64(lo) + rest);
    assert((((x >> 64u128) as u64) as u128) << 64u128 | ((x as u64) as u128) == x) by (bit_vector);
}

/// The number that bytes spell in base 256, most significant first.
pub open spec fn be_value(s: Seq<u8>) -> int
    decreases s.len(),
{
    if s.len() == 0 {
        0
    } else {
        be_value(s.drop_last()) * 256 + s.last()
    }
}

/// Joining byte strings joins their base-256 digits.
proof fn lemma_be_value_join(a: Seq<u8>, b: Seq<u8>)
    ensures
        be_value(a + b) == be_value(a) * vstd::arithmetic::power::pow(256, b.len()) + be_value(b),
    decreases b.len(),
{
    vstd::arithmetic::power::lemma_pow0(256);
    if b.len() == 0 {
        assert(a + b =~= a);
    } else {
        assert((a + b).drop_last() =~= a + b.drop_last());
        assert((a + b).last() == b.last());
        lemma_be_value_join(a, b.drop_last());
        vstd::arithmetic::power::lemma_pow_adds(256, (b.len() - 1) as nat, 1);
        vstd::arithmetic::power::lemma_pow1(256);
        let p = vstd::arithmetic::power::pow(256, (b.len() - 1) as nat);
        assert(vstd::arithmetic::power::pow(256, b.len()) == p * 256);
        assert((be_value(a) * p + be_value(b.drop_last())) * 256 + b.last() == be_value(a) * (p * 256) + (be_value(
            b.drop_last()) * 256 + b.last())) by (nonlinear_arith);
    }
}

/// Shifting bytes into place is adding their base-256 digits.
proof fn lemma_shifted_bytes(d0: u8, d1: u8, d2: u8, d3: u8, d4: u8, d5: u8, d6: u8, d7: u8, h: u64, l: u64)
    by (bit_vector)
    ensures
        ((d6 as u16) << 8u16) | (d7 as u16) == d6 * 0x100 + d7,
        ((d4 as u32) << 24u32) | ((d5 as u32) << 16u32) | ((d6 as u32) << 8u32) | (d7 as u32) == d4 * 0x100_0000 + d5
            * 0x1_0000 + d6 * 0x100 + d7,
        ((d0 as u64) << 56u64) | ((d1 as u64) << 48u64) | ((d2 as u64) << 40u64) | ((d3 as u64) << 32u64) | ((d4 as u64)
            << 24u64) | ((d5 as u64) << 16u64) | ((d6 as u64) << 8u64) | (d7 as u64) == d0 * 0x100_0000_0000_0000 + d1
            * 0x1_0000_0000_0000 + d2 * 0x100_0000_0000 + d3 * 0x1_0000_0000 + d4 * 0x100_0000 + d5 * 0x1_0000 + d6
            * 0x100 + d7,
        ((h as u128) << 64u128) | (l as u128) == h * 0x1_0000_0000_0000_0000 + l,
{
}

/// The number spelled by the first `n` bytes, for `n` up to eight.
proof fn lemma_be_value_small(s: Seq<u8>)
    requires
        s.len() <= 8,
    ensures
        s.len() == 2 ==> be_value(s) == s[0] * 0x100 + s[1],
        s.len() == 4 ==> be_value(s) == s[0] * 0x100_0000 + s[1] * 0x1_0000 + s[2] * 0x100 + s[3],
        s.len() == 8 ==> be_value(s) == s[0] * 0x100_0000_0000_0000 + s[1] * 0x1_0000_0000_0000 + s[2] * 0x100_0000_0000
            + s[3] * 0x1_0000_0000 + s[4] * 0x100_0000 + s[5] * 0x1_0000 + s[6] * 0x100 + s[7],
    decreases s.len(),
{
    if s.len() > 0 {
        lemma_be_value_small(s.drop_last());
        let t = s.drop_last();
        if s.len() >= 2 {
            lemma_be_value_small(t.drop_last());
            if s.len() >= 3 {
                lemma_be_value_small(t.drop_last().drop_last());
            }
        }
        reveal_with_fuel(be_value, 9);
    }
}

/// Fixed-width integers go on the wire as their base-256 digits, most
/// significant first: two bytes for 16 bits, four for 32, eight for 64,
/// sixteen for 128. Reading takes the number that the first bytes spell.
pub proof fn lemma_be_digits(x16: u16, x32: u32, x64: u64, x128: u128, data: Seq<u8>)
    ensures
        be16(x16).len() == 2 && be_value(be16(x16)) == x16,
        be32(x32).len() == 4 && be_value(be32(x32)) == x32,
        be64(x64).len() == 8 && be_value(be64(x64)) == x64,
        be128(x128).len() == 16 && be_value(be128(x128)) == x128,
        data.len() >= 2 ==> from_be16(data) == be_value(data.take(2)),
        data.len() >= 4 ==> from_be32(data) == be_value(data.take(4)),
        data.len() >= 8 ==> from_be64(data) == be_value(data.take(8)),
        data.len() >= 16 ==> from_be128(data) == be_value(data.take(16)),
{
    assert forall|t: Seq<u8>| t.len() >= 8 implies from_be64(t) == be_value(t.take(8)) by {
        lemma_shifted_bytes(t[0], t[1], t[2], t[3], t[4], t[5], t[6], t[7], 0, 0);
        lemma_be_value_small(t.take(8));
    }
    if data.len() >= 2 {
        lemma_shifted_bytes(0, 0, 0, 0, 0, 0, data[0], data[1], 0, 0);
        lemma_be_value_small(data.take(2));
    }
    if data.len() >= 4 {
        lemma_shifted_bytes(0, 0, 0, 0, data[0], data[1], data[2], data[3], 0, 0);
        lemma_be_value_small(data.take(4));
    }
    lemma_be16_roundtrip(x16, Seq::empty());
    lemma_be32_roundtrip(x32, Seq::empty());
    lemma_be64_roundtrip(x64, Seq::empty());
    lemma_be128_roundtrip(x128, Seq::empty());
    assert(be16(x16) + Seq::<u8>::empty() =~= be16(x16));
    assert(be32(x32) + Seq::<u8>::empty() =~= be32(x32));
    assert(be64(x64) + Seq::<u8>::empty() =~= be64(x64));
    assert(be128(x128) + Seq::<u8>::empty() =~= be128(x128));
    assert(be16(x16).take(2) =~= be16(x16));
    assert(be32(x32).take(4) =~= be32(x32));
    assert(be64(x64).take(8) =~= be64(x64));
    let s16 = be16(x16);
    lemma_shifted_bytes(0, 0, 0, 0, 0, 0, s16[0], s16[1], 0, 0);
    lemma_be_value_small(s16);
    let s32 = be32(x32);
    lemma_shifted_bytes(0, 0, 0, 0, s32[0], s32[1], s32[2], s32[3], 0, 0);
    lemma_be_value_small(s32);
    // sixteen bytes: the two halves
    assert forall|t: Seq<u8>| t.len() >= 16 implies from_be128(t) == be_value(t.take(16)) by {
        let hi = from_be64(t);
        let lo = from_be64(t.skip(8));
        assert(t.take(8) =~= t.take(16).take(8));
        assert(t.skip(8).take(8) =~= t.take(16).skip(8));
        assert(t.take(16) =~= t.take(8) + t.skip(8).take(8));
        lemma_be_value_join(t.take(8), t.skip(8).take(8));
        assert(vstd::arithmetic::power::pow(256, 8) == 0x1_0000_0000_0000_0000) by {
            reveal_with_fuel(vstd::arithmetic::power::pow, 9);
        }
        lemma_shifted_bytes(0, 0, 0, 0, 0, 0, 0, 0, hi, lo);
    }
    let s128 = be128(x128);
    assert(s128.take(16) =~= s128);
}

/// Append the big-endian bytes of `x`.
pub fn write_be16(x: u16, buf: &mut Vec<u8>)
    ensures
        final(buf)@ == old(buf)@ + be16(x),
{
    buf.push((x >> 8) as u8);
    buf.push(x as u8);
    assert(final(buf)@ =~= old(buf)@ + be16(x));
}

/// Append the big-endian bytes of `x`.
pub fn write_be32(x: u32, buf: &mut Vec<u8>)
    ensures
        final(buf)@ == old(buf)@ + be32(x),
{
    buf.push((x >> 24) as u8);
    buf.push((x >> 16) as u8);
    buf.push((x >> 8) as u8);
    buf.push(x as u8);
    assert(final(buf)@ =~= old(buf)@ + be32(x));
}

/// Append the big-endian bytes of `x`.
pub fn write_be64(x: u64, buf: &mut Vec<u8>)
    ensures
        final(buf)@ == old(buf)@ + be64(x),
{
    buf.push((x >> 56) as u8);
    buf.push((x >> 48) as u8);
    buf.push((x >> 40) as u8);
    buf.push((x >> 32) as u8);
    buf.push((x >> 24) as u8);
    buf.push((x >> 16) as u8);
    buf.push((x >> 8) as u8);
    buf.push(x as u8);
    assert(final(buf)@ =~= old(buf)@ + be64(x));
}

/// Append the big-endian bytes of `x`.
pub fn write_be128(x: u128, buf: &mut Vec<u8>)
    ensures
        final(buf)@ == old(buf)@ + be128(x),
{
    write_be64((x >> 64) as u64, buf);
    write_be64(x as u64, buf);
    assert(final(buf)@ =~= old(buf)@ + be128(x));
}

/// Read a big-endian 128-bit pattern; on error the reader is left as it was.
pub fn read_be128(reader: &mut Cursor) -> (r: Result<u128, SerializationError>)
    ensures
        match fixed_width(old(reader).remaining(), 16, from_be128(old(reader).remaining())) {
            Ok((v, n)) => r == Ok::<u128, SerializationError>(v) && advanced(*old(reader), *final(reader), n),
            Err(e) => r == Err::<u128, SerializationError>(e) && *final(reader) == *old(reader),
        },
{
    if reader.remaining_len() < 16 {
        return Err(SerializationError::UnexpectedEof);
    }
    let ghost data = old(reader).remaining();
    let hi = match read_be64(reader) {
        Ok(v) => v,
        Err(e) => return Err(e),
    };
    let lo = match read_be64(reader) {
        Ok(v) => v,
        Err(e) => return Err(e),
    };
    assert(reader.remaining() =~= data.skip(16));
    Ok(((hi as u128) << 64) | (lo as u128))
}

/// Read a big-endian 16-bit pattern; on error the reader is left as it was.
pub fn read_be16(reader: &mut Cursor) -> (r: Result<u16, SerializationError>)
    ensures
        match fixed_width(old(reader).remaining(), 2, from_be16(old(reader).remaining())) {
            Ok((v, n)) => r == Ok::<u16, SerializationError>(v) && advanced(*old(reader), *final(reader), n),
            Err(e) => r == Err::<u16, SerializationError>(e) && *final(reader) == *old(reader),
        },
{
    if reader.remaining_len() < 2 {
        return Err(SerializationError::UnexpectedEof);
    }
    let v = ((reader.peek_at(0) as u16) << 8) | (reader.peek_at(1) as u16);
    reader.advance(2);
    Ok(v)
}

/// Read a big-endian 32-bit pattern; on error the reader is left as it was.
pub fn read_be32(reader: &mut Cursor) -> (r: Result<u32, SerializationError>)
    ensures
        match fixed_width(old(reader).remaining(), 4, from_be32(old(reader).remaining())) {
            Ok((v, n)) => r == Ok::<u32, SerializationError>(v) && advanced(*old(reader), *final(reader), n),
            Err(e) => r == Err::<u32, SerializationError>(e) && *final(reader) == *old(reader),
        },
{
    if reader.remaining_len() < 4 {
        return Err(SerializationError::UnexpectedEof);
    }
    let v = ((reader.peek_at(0) as u32) << 24) | ((reader.peek_at(1) as u32) << 16) | ((reader.peek_at(2) as u32) << 8)
        | (reader.peek_at(3) as u32);
    reader.advance(4);
    Ok(v)
}

/// Read a big-endian 64-bit pattern; on error the reader is left as it was.
pub fn read_be64(reader: &mut Cursor) -> (r: Result<u64, SerializationError>)
    ensures
        match fixed_width(old(reader).remaining(), 8, from_be64(old(reader).remaining())) {
            Ok((v, n)) => r == Ok::<u64, SerializationError>(v) && advanced(*old(reader), *final(reader), n),
            Err(e) => r == Err::<u64, SerializationError>(e) && *final(reader) == *old(reader),
        },
{
    if reader.remaining_len() < 8 {
        return Err(SerializationError::UnexpectedEof);
    }
    let v = ((reader.peek_at(0) as u64) << 56) | ((reader.peek_at(1) as u64) << 48) | ((reader.peek_at(2) as u64)
        << 40) | ((reader.peek_at(3) as u64) << 32) | ((reader.peek_at(4) as u64) << 24) | ((
    reader.peek_at(5) as u64) << 16) | ((reader.peek_at(6) as u64) << 8) | (reader.peek_at(7) as u64);
    reader.advance(8);
    Ok(v)
}

impl Serialize for bool {
    /// `true` is the byte 1, `false` the byte 0.
    open spec fn spec_serialize(&self) -> Result<Seq<u8>, SerializationError> {
        Ok(seq![if *self { 1u8 } else { 0u8 }])
    }

    fn serialize(&self, buf: &mut Vec<u8>) -> (r: Result<(), SerializationError>) {
        buf.push(if *self { 1u8 } else { 0u8 });
        assert(final(buf)@ =~= old(buf)@ + seq![if *self { 1u8 } else { 0u8 }]);
        Ok(())
    }
}

impl Deserialize for bool {
    /// Any non-zero byte reads as `true`.
    open spec fn spec_deserialize(data: Seq<u8>) -> Result<(bool, int), SerializationError> {
        fixed_width(data, 1, data[0] != 0)
    }

    fn deserialize(reader: &mut Cursor) -> (r: Result<bool, SerializationError>) {
        match reader.read_u8() {
            Ok(b) => Ok(b != 0),
            Err(e) => Err(e),
        }
    }
}

impl Serialize for u8 {
    open spec fn spec_serialize(&self) -> Result<Seq<u8>, SerializationError> {
        Ok(seq![*self])
    }

    fn serialize(&self, buf: &mut Vec<u8>) -> (r: Result<(), SerializationError>) {
        buf.push(*self);
        assert(final(buf)@ =~= old(buf)@ + seq![*self]);
        Ok(())
    }
}

impl Deserialize for u8 {
    open spec fn spec_deserialize(data: Seq<u8>) -> Result<(u8, int), SerializationError> {
        fixed_width(data, 1, data[0])
    }

    fn deserialize(reader: &mut Cursor) -> (r: Result<u8, SerializationError>) {
        reader.read_u8()
    }
}

impl Serialize for i8 {
    open spec fn spec_serialize(&self) -> Result<Seq<u8>, SerializationError> {
        Ok(seq![*self as u8])
    }

    fn serialize(&self, buf: &mut Vec<u8>) -> (r: Result<(), SerializationError>) {
        buf.push(*self as u8);
        assert(final(buf)@ =~= old(buf)@ + seq![*self as u8]);
        Ok(())
    }
}

impl Deserialize for i8 {
    open spec fn spec_deserialize(data: Seq<u8>) -> Result<(i8, int), SerializationError> {
        fixed_width(data, 1, data[0] as i8)
    }

    fn deserialize(reader: &mut Cursor) -> (r: Result<i8, SerializationError>) {
        match reader.read_u8() {
            Ok(b) => Ok(b as i8),
            Err(e) => Err(e),
        }
    }
}

impl Serialize for u16 {
    open spec fn spec_serialize(&self) -> Result<Seq<u8>, SerializationError> {
        Ok(be16(*self))
    }

    fn serialize(&self, buf: &mut Vec<u8>) -> (r: Result<(), SerializationError>) {
        write_be16(*self, buf);
        Ok(())
    }
}

impl Deserialize for u16 {
    open spec fn spec_deserialize(data: Seq<u8>) -> Result<(u16, int), SerializationError> {
        fixed_width(data, 2, from_be16(data))
    }

    fn deserialize(reader: &mut Cursor) -> (r: Result<u16, SerializationError>) {
        read_be16(reader)
    }
}

impl Serialize for i16 {
    open spec fn spec_serialize(&self) -> Result<Seq<u8>, SerializationError> {
        Ok(be16(*self as u16))
    }

    fn serialize(&self, buf: &mut Vec<u8>) -> (r: Result<(), SerializationError>) {
        write_be16(*self as u16, buf);
        Ok(())
    }
}

impl Deserialize for i16 {
    open spec fn spec_deserialize(data: Seq<u8>) -> Result<(i16, int), SerializationError> {
        fixed_width(data, 2, from_be16(data) as i16)
    }

    fn deserialize(reader: &mut Cursor) -> (r: Result<i16, SerializationError>) {
        match read_be16(reader) {
            Ok(v) => Ok(v as i16),
            Err(e) => Err(e),
        }
    }
}

impl Serialize for u32 {
    open spec fn spec_serialize(&self) -> Result<Seq<u8>, SerializationError> {
        Ok(be32(*self))
    }

    fn serialize(&self, buf: &mut Vec<u8>) -> (r: Result<(), SerializationError>) {
        write_be32(*self, buf);
        Ok(())
    }
}

impl Deserialize for u32 {
    open spec fn spec_deserialize(data: Seq<u8>) -> Result<(u32, int), SerializationError> {
        fixed_width(data, 4, from_be32(data))
    }

    fn deserialize(reader: &mut Cursor) -> (r: Result<u32, SerializationError>) {
        read_be32(reader)
    }
}

impl Serialize for i32 {
    open spec fn spec_serialize(&self) -> Result<Seq<u8>, SerializationError> {
        Ok(be32(*self as u32))
    }

    fn serialize(&self, buf: &mut Vec<u8>) -> (r: Result<(), SerializationError>) {
        write_be32(*self as u32, buf);
        Ok(())
    }
}

impl Deserialize for i32 {
    open spec fn spec_deserialize(data: Seq<u8>) -> Result<(i32, int), SerializationError> {
        fixed_width(data, 4, from_be32(data) as i32)
    }

    fn deserialize(reader: &mut Cursor) -> (r: Result<i32, SerializationError>) {
        match read_be32(reader) {
            Ok(v) => Ok(v as i32),
            Err(e) => Err(e),
        }
    }
}

impl Serialize for u64 {
    open spec fn spec_serialize(&self) -> Result<Seq<u8>, SerializationError> {
        Ok(be64(*self))
    }

    fn serialize(&self, buf: &mut Vec<u8>) -> (r: Result<(), SerializationError>) {
        write_be64(*self, buf);
        Ok(())
    }
}

impl Deserialize for u64 {
    open spec fn spec_deserialize(data: Seq<u8>) -> Result<(u64, int), SerializationError> {
        fixed_width(data, 8, from_be64(data))
    }

    fn deserialize(reader: &mut Cursor) -> (r: Result<u64, SerializationError>) {
        read_be64(reader)
    }
}

impl Serialize for i64 {
    open spec fn spec_serialize(&self) -> Result<Seq<u8>, SerializationError> {
        Ok(be64(*self as u64))
    }

    fn serialize(&self, buf: &mut Vec<u8>) -> (r: Result<(), SerializationError>) {
        write_be64(*self as u64, buf);
        Ok(())
    }
}

impl Deserialize for i64 {
    open spec fn spec_deserialize(data: Seq<u8>) -> Result<(i64, int), SerializationError> {
        fixed_width(data, 8, from_be64(data) as i64)
    }

    fn deserialize(reader: &mut Cursor) -> (r: Result<i64, SerializationError>) {
        match read_be64(reader) {
            Ok(v) => Ok(v as i64),
            Err(e) => Err(e),
        }
    }
}


impl Serialize for u128 {
    open spec fn spec_serialize(&self) -> Result<Seq<u8>, SerializationError> {
        Ok(be128(*self))
    }

    fn serialize(&self, buf: &mut Vec<u8>) -> (r: Result<(), SerializationError>) {
        write_be128(*self, buf);
        Ok(())
    }
}

impl Deserialize for u128 {
    open spec fn spec_deserialize(data: Seq<u8>) -> Result<(u128, int), SerializationError> {
        fixed_width(data, 16, from_be128(data))
    }

    fn deserialize(reader: &mut Cursor) -> (r: Result<u128, SerializationError>) {
        read_be128(reader)
    }
}

impl RoundTrip for u128 {
    proof fn lemma_round_trip(&self, rest: Seq<u8>) {
        lemma_be128_roundtrip(*self, rest);
    }
}

impl RoundTrip for bool {
    proof fn lemma_round_trip(&self, rest: Seq<u8>) {
        assert((seq![if *self { 1u8 } else { 0u8 }] + rest)[0] == if *self { 1u8 } else { 0u8 });
    }
}

impl RoundTrip for u8 {
    proof fn lemma_round_trip(&self, rest: Seq<u8>) {
        assert((seq![*self] + rest)[0] == *self);
    }
}

impl RoundTrip for i8 {
    proof fn lemma_round_trip(&self, rest: Seq<u8>) {
        let x = *self;
        assert((seq![x as u8] + rest)[0] == x as u8);
        assert((x as u8) as i8 == x) by (bit_vector);
    }
}

impl RoundTrip for u16 {
    proof fn lemma_round_trip(&self, rest: Seq<u8>) {
        lemma_be16_roundtrip(*self, rest);
    }
}

impl RoundTrip for i16 {
    proof fn lemma_round_trip(&self, rest: Seq<u8>) {
        let x = *self;
        lemma_be16_roundtrip(x as u16, rest);
        assert((x as u16) as i16 == x) by (bit_vector);
    }
}

impl RoundTrip for u32 {
    proof fn lemma_round_trip(&self, rest: Seq<u8>) {
        lemma_be32_roundtrip(*self, rest);
    }
}

impl RoundTrip for i32 {
    proof fn lemma_round_trip(&self, rest: Seq<u8>) {
        let x = *self;
        lemma_be32_roundtrip(x as u32, rest);
        lemma_i32_bits(x);
    }
}

impl RoundTrip for u64 {
    proof fn lemma_round_trip(&self, rest: Seq<u8>) {
        lemma_be64_roundtrip(*self, rest);
    }
}

impl RoundTrip for i64 {
    proof fn lemma_round_trip(&self, rest: Seq<u8>) {
        let x = *self;
        lemma_be64_roundtrip(x as u64, rest);
        lemma_i64_bits(x);
    }
}

} // verus!
