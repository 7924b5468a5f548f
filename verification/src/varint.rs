//! Variable-length integers (`VarInt`, `VarLong`).

use vstd::prelude::*;
use crate::ser::{Cursor, Deserialize, RoundTrip, SerializationError, Serialize, advanced};
use crate::num::{lemma_i32_bits, lemma_i64_bits};

verus! {

/// Dropping a group shrinks a pattern that has more than one.
pub proof fn lemma_shr7_32(x: u32)
    ensures
        x >= 0x80 ==> x >> 7u32 < x,
{
    assert(x >= 0x80 ==> x >> 7u32 < x) by (bit_vector);
}

/// Dropping a group shrinks a pattern that has more than one.
pub proof fn lemma_shr7_64(x: u64)
    ensures
        x >= 0x80 ==> x >> 7u64 < x,
{
    assert(x >= 0x80 ==> x >> 7u64 < x) by (bit_vector);
}

/// Placing the groups after `i` of them: a low group at shift `s` then the
/// rest shifted by seven more.
proof fn lemma_place_group_32(acc: u32, b7: u32, v: u32, shift: u32)
    ensures
        shift <= 21 ==> acc | ((b7 | (v << 7u32)) << shift) == (acc | (b7 << shift)) | (v << ((shift + 7) as u32)),
        0u32 | (v << 0u32) == v,
{
    assert(shift <= 21 ==> acc | ((b7 | (v << 7u32)) << shift) == (acc | (b7 << shift)) | (v << ((shift + 7) as u32))) by (bit_vector);
    assert(0u32 | (v << 0u32) == v) by (bit_vector);
}

/// Seven-bit groups of a 32-bit pattern, least significant first, each but
/// the last with its continuation bit (0x80) set.
pub open spec fn varint_bytes(v: u32) -> Seq<u8>
    decreases v,
{
    if v < 0x80 {
        seq![v as u8]
    } else {
        proof {
            lemma_shr7_32(v);
        }
        seq![((v & 0x7f) | 0x80) as u8] + varint_bytes(v >> 7u32)
    }
}

/// Decoding of a 32-bit group sequence that may use at most `max_bytes` bytes.
pub open spec fn varint_parse(data: Seq<u8>, max_bytes: nat) -> Result<(u32, int), VarIntError>
    decreases data.len(),
{
    if data.len() == 0 {
        Err(VarIntError::UnexpectedEof)
    } else {
        let b = data[0];
        if b & 0x80 == 0 {
            Ok(((b & 0x7f) as u32, 1))
        } else if max_bytes <= 1 {
            Err(VarIntError::TooLong)
        } else {
            match varint_parse(data.drop_first(), (max_bytes - 1) as nat) {
                Ok((v, n)) => Ok((((b & 0x7f) as u32) | (v << 7u32), n + 1)),
                Err(e) => Err(e),
            }
        }
    }
}

/// Errors while decoding a `VarInt` or `VarLong`.
#[derive(Debug, Clone, Copy, PartialEq, Eq)]
pub enum VarIntError {
    /// The input ended before the last group.
    UnexpectedEof,
    /// More groups than the type allows (5 for `VarInt`, 10 for `VarLong`).
    TooLong,
}

pub proof fn lemma_varint_bytes_len(v: u32)
    ensures
        1 <= varint_bytes(v).len() <= 5,
{
    reveal_with_fuel(varint_bytes, 6);
    assert(v >> 7u32 >> 7u32 >> 7u32 >> 7u32 < 0x80) by (bit_vector);
    assert(v >= 0x80 ==> v >> 7u32 >= 1) by (bit_vector);
}

proof fn lemma_varint_roundtrip_aux(v: u32, rest: Seq<u8>, max_bytes: nat)
    requires
        varint_bytes(v).len() <= max_bytes,
    ensures
        varint_parse(varint_bytes(v) + rest, max_bytes) == Ok::<(u32, int), VarIntError>((v, varint_bytes(v).len() as int)),
    decreases v,
{
    let s = varint_bytes(v) + rest;
    if v < 0x80 {
        assert(s[0] == v as u8);
        assert(v < 0x80 ==> (v as u8) & 0x80 == 0 && ((v as u8) & 0x7f) as u32 == v) by (bit_vector);
    } else {
        lemma_shr7_32(v);
        let b = ((v & 0x7f) | 0x80) as u8;
        let tail = varint_bytes(v >> 7u32);
        lemma_varint_roundtrip_aux(v >> 7u32, rest, (max_bytes - 1) as nat);
        assert(s[0] == b);
        assert(s.drop_first() =~= tail + rest);
        assert(b & 0x80 != 0 && ((b & 0x7f) as u32) | ((v >> 7u32) << 7u32) == v) by (bit_vector)
            requires b == ((v & 0x7f) | 0x80) as u8;
    }
}

/// Decoding the encoding of a 32-bit pattern gives it back and consumes exactly its bytes.
pub proof fn lemma_varint_roundtrip(v: u32, rest: Seq<u8>)
    ensures
        varint_parse(varint_bytes(v) + rest, 5) == Ok::<(u32, int), VarIntError>((v, varint_bytes(v).len() as int)),
{
    lemma_varint_bytes_len(v);
    lemma_varint_roundtrip_aux(v, rest, 5);
}


/// Seven-bit groups of a 64-bit pattern, least significant first, each but
/// the last with its continuation bit (0x80) set.
pub open spec fn varlong_bytes(v: u64) -> Seq<u8>
    decreases v,
{
    if v < 0x80 {
        seq![v as u8]
    } else {
        proof {
            lemma_shr7_64(v);
        }
        seq![((v & 0x7f) | 0x80) as u8] + varlong_bytes(v >> 7u64)
    }
}

/// Decoding of a 64-bit group sequence that may use at most `max_bytes` bytes.
pub open spec fn varlong_parse(data: Seq<u8>, max_bytes: nat) -> Result<(u64, int), VarIntError>
    decreases data.len(),
{
    if data.len() == 0 {
        Err(VarIntError::UnexpectedEof)
    } else {
        let b = data[0];
        if b & 0x80 == 0 {
            Ok(((b & 0x7f) as u64, 1))
        } else if max_bytes <= 1 {
            Err(VarIntError::TooLong)
        } else {
            match varlong_parse(data.drop_first(), (max_bytes - 1) as nat) {
                Ok((v, n)) => Ok((((b & 0x7f) as u64) | (v << 7u64), n + 1)),
                Err(e) => Err(e),
            }
        }
    }
}

pub proof fn lemma_varlong_bytes_len(v: u64)
    ensures
        1 <= varlong_bytes(v).len() <= 10,
{
    reveal_with_fuel(varlong_bytes, 11);
    assert(v >> 7u64 >> 7u64 >> 7u64 >> 7u64 >> 7u64 >> 7u64 >> 7u64 >> 7u64 >> 7u64 < 0x80) by (bit_vector);
}

proof fn lemma_varlong_roundtrip_aux(v: u64, rest: Seq<u8>, max_bytes: nat)
    requires
        varlong_bytes(v).len() <= max_bytes,
    ensures
        varlong_parse(varlong_bytes(v) + rest, max_bytes) == Ok::<(u64, int), VarIntError>((v, varlong_bytes(v).len() as int)),
    decreases v,
{
    let s = varlong_bytes(v) + rest;
    if v < 0x80 {
        assert(s[0] == v as u8);
        assert(v < 0x80 ==> (v as u8) & 0x80 == 0 && ((v as u8) & 0x7f) as u64 == v) by (bit_vector);
    } else {
        lemma_shr7_64(v);
        let b = ((v & 0x7f) | 0x80) as u8;
        let tail = varlong_bytes(v >> 7u64);
        lemma_varlong_roundtrip_aux(v >> 7u64, rest, (max_bytes - 1) as nat);
        assert(s[0] == b);
        assert(s.drop_first() =~= tail + rest);
        assert(b & 0x80 != 0 && ((b & 0x7f) as u64) | ((v >> 7u64) << 7u64) == v) by (bit_vector)
            requires b == ((v & 0x7f) | 0x80) as u8;
    }
}

/// Decoding the encoding of a 64-bit pattern gives it back and consumes exactly its bytes.
pub proof fn lemma_varlong_roundtrip(v: u64, rest: Seq<u8>)
    ensures
        varlong_parse(varlong_bytes(v) + rest, 10) == Ok::<(u64, int), VarIntError>((v, varlong_bytes(v).len() as int)),
{
    lemma_varlong_bytes_len(v);
    lemma_varlong_roundtrip_aux(v, rest, 10);
}

/// The outcome of decoding `r` from the bytes after `i` groups that
/// accumulated `acc`.
spec fn resume32(r: Result<(u32, int), VarIntError>, acc: u32, i: nat) -> Result<(u32, int), VarIntError> {
    match r {
        Ok((v, n)) => Ok((acc | (v << ((7 * i) as u32)), n + i)),
        Err(e) => Err(e),
    }
}

spec fn resume64(r: Result<(u64, int), VarIntError>, acc: u64, i: nat) -> Result<(u64, int), VarIntError> {
    match r {
        Ok((v, n)) => Ok((acc | (v << ((7 * i) as u64)), n + i)),
        Err(e) => Err(e),
    }
}

/// Decode a `VarInt` group sequence at the reader's position; the reader is
/// advanced past it on success and left unchanged on error.
fn read_varint32(reader: &mut Cursor) -> (r: Result<u32, VarIntError>)
    ensures
        match varint_parse(old(reader).remaining(), 5) {
            Ok((v, n)) => r == Ok::<u32, VarIntError>(v) && advanced(*old(reader), *final(reader), n),
            Err(e) => r == Err::<u32, VarIntError>(e) && *final(reader) == *old(reader),
        },
{
    let ghost rem = reader.remaining();
    let mut value: u32 = 0;
    let mut i: usize = 0;
    proof {
        assert(rem.skip(0) =~= rem);
        match varint_parse(rem, 5) {
            Ok((v, n)) => {
                lemma_place_group_32(0, 0, v, 0);
            },
            Err(_) => {},
        }
    }
    loop
        invariant
            i < 5,
            i <= rem.len(),
            rem == reader.remaining(),
            *reader == *old(reader),
            varint_parse(rem, 5) == resume32(varint_parse(rem.skip(i as int), (5 - i) as nat), value, i as nat),
        decreases 5 - i,
    {
        if i >= reader.remaining_len() {
            assert(rem.skip(i as int).len() == 0);
            return Err(VarIntError::UnexpectedEof);
        }
        let b = reader.peek_at(i);
        assert(rem.skip(i as int)[0] == b);
        assert(rem.skip(i as int).drop_first() =~= rem.skip(i + 1));
        let shift: u32 = (7 * i) as u32;
        let part: u32 = ((b & 0x7f) as u32) << shift;
        if b & 0x80 == 0 {
            value = value | part;
            reader.advance(i + 1);
            return Ok(value);
        }
        if i == 4 {
            return Err(VarIntError::TooLong);
        }
        proof {
            let ghost acc = value;
            let ghost b7 = (b & 0x7f) as u32;
            match varint_parse(rem.skip(i + 1), (5 - i - 1) as nat) {
                Ok((v, n)) => {
                    lemma_place_group_32(acc, b7, v, shift);
                },
                Err(_) => {},
            }
        }
        value = value | part;
        i = i + 1;
    }
}

/// Decode a `VarLong` group sequence at the reader's position; the reader is
/// advanced past it on success and left unchanged on error.
fn read_varint64(reader: &mut Cursor) -> (r: Result<u64, VarIntError>)
    ensures
        match varlong_parse(old(reader).remaining(), 10) {
            Ok((v, n)) => r == Ok::<u64, VarIntError>(v) && advanced(*old(reader), *final(reader), n),
            Err(e) => r == Err::<u64, VarIntError>(e) && *final(reader) == *old(reader),
        },
{
    let ghost rem = reader.remaining();
    let mut value: u64 = 0;
    let mut i: usize = 0;
    proof {
        assert(rem.skip(0) =~= rem);
        match varlong_parse(rem, 10) {
            Ok((v, n)) => {
                assert(0u64 | (v << 0u64) == v) by (bit_vector);
            },
            Err(_) => {},
        }
    }
    loop
        invariant
            i < 10,
            i <= rem.len(),
            rem == reader.remaining(),
            *reader == *old(reader),
            varlong_parse(rem, 10) == resume64(varlong_parse(rem.skip(i as int), (10 - i) as nat), value, i as nat),
        decreases 10 - i,
    {
        if i >= reader.remaining_len() {
            assert(rem.skip(i as int).len() == 0);
            return Err(VarIntError::UnexpectedEof);
        }
        let b = reader.peek_at(i);
        assert(rem.skip(i as int)[0] == b);
        assert(rem.skip(i as int).drop_first() =~= rem.skip(i + 1));
        let shift: u64 = (7 * i) as u64;
        let part: u64 = ((b & 0x7f) as u64) << shift;
        if b & 0x80 == 0 {
            value = value | part;
            reader.advance(i + 1);
            return Ok(value);
        }
        if i == 9 {
            return Err(VarIntError::TooLong);
        }
        proof {
            let ghost acc = value;
            let ghost b7 = (b & 0x7f) as u64;
            match varlong_parse(rem.skip(i + 1), (10 - i - 1) as nat) {
                Ok((v, n)) => {
                    assert(shift <= 56 ==> acc | ((b7 | (v << 7u64)) << shift) == (acc | (b7 << shift)) | (v << ((shift + 7) as u64))) by (bit_vector);
                },
                Err(_) => {},
            }
        }
        value = value | part;
        i = i + 1;
    }
}

/// Append the groups of a 32-bit pattern.
fn write_varint32(v: u32, buf: &mut Vec<u8>)
    ensures
        final(buf)@ == old(buf)@ + varint_bytes(v),
{
    let mut x = v;
    while x >= 0x80
        invariant
            buf@ + varint_bytes(x) == old(buf)@ + varint_bytes(v),
        decreases x,
    {
        let ghost before = buf@;
        proof {
            lemma_shr7_32(x);
        }
        buf.push(((x & 0x7f) | 0x80) as u8);
        assert(before + varint_bytes(x) =~= buf@ + varint_bytes(x >> 7u32));
        x = x >> 7;
    }
    let ghost before = buf@;
    buf.push(x as u8);
    assert(before + varint_bytes(x) =~= buf@);
}

/// Append the groups of a 64-bit pattern.
fn write_varint64(v: u64, buf: &mut Vec<u8>)
    ensures
        final(buf)@ == old(buf)@ + varlong_bytes(v),
{
    let mut x = v;
    while x >= 0x80
        invariant
            buf@ + varlong_bytes(x) == old(buf)@ + varlong_bytes(v),
        decreases x,
    {
        let ghost before = buf@;
        proof {
            lemma_shr7_64(x);
        }
        buf.push(((x & 0x7f) | 0x80) as u8);
        assert(before + varlong_bytes(x) =~= buf@ + varlong_bytes(x >> 7u64));
        x = x >> 7;
    }
    let ghost before = buf@;
    buf.push(x as u8);
    assert(before + varlong_bytes(x) =~= buf@);
}


/// A 32-bit signed integer in the protocol's variable-length encoding (1 to 5 bytes).
#[derive(Debug, Clone, Copy, PartialEq, Eq, Hash, Default)]
pub struct VarInt(pub i32);

/// A 64-bit signed integer in the protocol's variable-length encoding (1 to 10 bytes).
#[derive(Debug, Clone, Copy, PartialEq, Eq, Hash, Default)]
pub struct VarLong(pub i64);

/// The encoding of a `VarInt` holding `v`: the groups of its two's-complement bits.
pub open spec fn spec_varint(v: i32) -> Seq<u8> {
    varint_bytes(v as u32)
}

/// The encoding of a `VarLong` holding `v`.
pub open spec fn spec_varlong(v: i64) -> Seq<u8> {
    varlong_bytes(v as u64)
}

/// Decoding a `VarInt` from the front of `data`: the value and the bytes it takes.
pub open spec fn spec_read_varint(data: Seq<u8>) -> Result<(i32, int), VarIntError> {
    match varint_parse(data, 5) {
        Ok((v, n)) => Ok((v as i32, n)),
        Err(e) => Err(e),
    }
}

/// Decoding a `VarLong` from the front of `data`.
pub open spec fn spec_read_varlong(data: Seq<u8>) -> Result<(i64, int), VarIntError> {
    match varlong_parse(data, 10) {
        Ok((v, n)) => Ok((v as i64, n)),
        Err(e) => Err(e),
    }
}

impl VarInt {
    /// The number of bytes of this value's encoding.
    pub fn encoded_len(&self) -> (n: usize)
        ensures
            n == spec_varint(self.0).len(),
            1 <= n <= 5,
    {
        let mut x: u32 = self.0 as u32;
        let mut n: usize = 1;
        proof {
            lemma_varint_bytes_len(x);
        }
        while x >= 0x80
            invariant
                n + varint_bytes(x).len() - 1 == spec_varint(self.0).len(),
                1 <= n,
                spec_varint(self.0).len() <= 5,
                1 <= varint_bytes(x).len(),
            decreases x,
        {
            proof {
            lemma_shr7_32(x);
        }
            proof {
                lemma_varint_bytes_len(x >> 7u32);
            }
            x = x >> 7;
            n = n + 1;
        }
        n
    }

    /// Append this value's encoding to `buf`.
    pub fn write_sync(&self, buf: &mut Vec<u8>)
        ensures
            final(buf)@ == old(buf)@ + spec_varint(self.0),
    {
        write_varint32(self.0 as u32, buf);
    }

    /// Decode a `VarInt` at the reader's position. On success the reader is
    /// advanced past it; on error it is left as it was.
    pub fn read_sync(reader: &mut Cursor) -> (r: Result<VarInt, VarIntError>)
        ensures
            match spec_read_varint(old(reader).remaining()) {
                Ok((v, n)) => r == Ok::<VarInt, VarIntError>(VarInt(v)) && advanced(*old(reader), *final(reader), n),
                Err(e) => r == Err::<VarInt, VarIntError>(e) && *final(reader) == *old(reader),
            },
    {
        match read_varint32(reader) {
            Ok(v) => Ok(VarInt(v as i32)),
            Err(e) => Err(e),
        }
    }
}

impl VarLong {
    /// The number of bytes of this value's encoding.
    pub fn encoded_len(&self) -> (n: usize)
        ensures
            n == spec_varlong(self.0).len(),
            1 <= n <= 10,
    {
        let mut x: u64 = self.0 as u64;
        let mut n: usize = 1;
        proof {
            lemma_varlong_bytes_len(x);
        }
        while x >= 0x80
            invariant
                n + varlong_bytes(x).len() - 1 == spec_varlong(self.0).len(),
                1 <= n,
                spec_varlong(self.0).len() <= 10,
                1 <= varlong_bytes(x).len(),
            decreases x,
        {
            proof {
            lemma_shr7_64(x);
        }
            proof {
                lemma_varlong_bytes_len(x >> 7u64);
            }
            x = x >> 7;
            n = n + 1;
        }
        n
    }

    /// Append this value's encoding to `buf`.
    pub fn write_sync(&self, buf: &mut Vec<u8>)
        ensures
            final(buf)@ == old(buf)@ + spec_varlong(self.0),
    {
        write_varint64(self.0 as u64, buf);
    }

    /// Decode a `VarLong` at the reader's position. On success the reader is
    /// advanced past it; on error it is left as it was.
    pub fn read_sync(reader: &mut Cursor) -> (r: Result<VarLong, VarIntError>)
        ensures
            match spec_read_varlong(old(reader).remaining()) {
                Ok((v, n)) => r == Ok::<VarLong, VarIntError>(VarLong(v)) && advanced(*old(reader), *final(reader), n),
                Err(e) => r == Err::<VarLong, VarIntError>(e) && *final(reader) == *old(reader),
            },
    {
        match read_varint64(reader) {
            Ok(v) => Ok(VarLong(v as i64)),
            Err(e) => Err(e),
        }
    }
}

impl DeepView for VarInt {
    type V = VarInt;

    open spec fn deep_view(&self) -> VarInt {
        *self
    }
}

impl DeepView for VarLong {
    type V = VarLong;

    open spec fn deep_view(&self) -> VarLong {
        *self
    }
}

impl Serialize for VarInt {
    open spec fn spec_serialize(&self) -> Result<Seq<u8>, SerializationError> {
        Ok(spec_varint(self.0))
    }

    fn serialize(&self, buf: &mut Vec<u8>) -> (r: Result<(), SerializationError>) {
        self.write_sync(buf);
        Ok(())
    }
}

impl Serialize for VarLong {
    open spec fn spec_serialize(&self) -> Result<Seq<u8>, SerializationError> {
        Ok(spec_varlong(self.0))
    }

    fn serialize(&self, buf: &mut Vec<u8>) -> (r: Result<(), SerializationError>) {
        self.write_sync(buf);
        Ok(())
    }
}

impl Deserialize for VarInt {
    open spec fn spec_deserialize(data: Seq<u8>) -> Result<(VarInt, int), SerializationError> {
        match spec_read_varint(data) {
            Ok((v, n)) => Ok((VarInt(v), n)),
            Err(e) => Err(SerializationError::VarInt(e)),
        }
    }

    fn deserialize(reader: &mut Cursor) -> (r: Result<VarInt, SerializationError>) {
        match VarInt::read_sync(reader) {
            Ok(v) => Ok(v),
            Err(e) => Err(SerializationError::VarInt(e)),
        }
    }
}

impl Deserialize for VarLong {
    open spec fn spec_deserialize(data: Seq<u8>) -> Result<(VarLong, int), SerializationError> {
        match spec_read_varlong(data) {
            Ok((v, n)) => Ok((VarLong(v), n)),
            Err(e) => Err(SerializationError::VarInt(e)),
        }
    }

    fn deserialize(reader: &mut Cursor) -> (r: Result<VarLong, SerializationError>) {
        match VarLong::read_sync(reader) {
            Ok(v) => Ok(v),
            Err(e) => Err(SerializationError::VarInt(e)),
        }
    }
}

/// Decoding the encoding of a `VarInt` gives the same value and consumes
/// exactly its bytes, whatever follows it.
pub proof fn lemma_varint_encode_decode(v: i32, rest: Seq<u8>)
    ensures
        spec_read_varint(spec_varint(v) + rest) == Ok::<(i32, int), VarIntError>((v, spec_varint(v).len() as int)),
        1 <= spec_varint(v).len() <= 5,
{
    lemma_varint_roundtrip(v as u32, rest);
    lemma_varint_bytes_len(v as u32);
    lemma_i32_bits(v);
}

/// Decoding the encoding of a `VarLong` gives the same value and consumes
/// exactly its bytes, whatever follows it.
pub proof fn lemma_varlong_encode_decode(v: i64, rest: Seq<u8>)
    ensures
        spec_read_varlong(spec_varlong(v) + rest) == Ok::<(i64, int), VarIntError>((v, spec_varlong(v).len() as int)),
        1 <= spec_varlong(v).len() <= 10,
{
    lemma_varlong_roundtrip(v as u64, rest);
    lemma_varlong_bytes_len(v as u64);
    lemma_i64_bits(v);
}


/// Negative values take the full five bytes, values below 128 one byte.
pub proof fn lemma_varint_len_extremes(v: i32)
    ensures
        v < 0 ==> spec_varint(v).len() == 5,
        0 <= v < 0x80 ==> spec_varint(v).len() == 1,
{
    reveal_with_fuel(varint_bytes, 6);
    let x = v as u32;
    if v < 0 {
        assert(v < 0 ==> x >= 0x8000_0000u32) by (bit_vector)
            requires x == v as u32;
        assert(x >= 0x8000_0000u32 ==> x >= 0x80 && x >> 7u32 >= 0x80 && x >> 7u32 >> 7u32 >= 0x80 && x >> 7u32 >> 7u32 >> 7u32 >= 0x80
            && x >> 7u32 >> 7u32 >> 7u32 >> 7u32 < 0x80) by (bit_vector);
    }
}

/// A decoded group sequence takes at least one byte and at most the bytes
/// allowed and available.
proof fn lemma_varint_parse_len(data: Seq<u8>, max_bytes: nat)
    ensures
        varint_parse(data, max_bytes) matches Ok((v, n)) ==> 1 <= n <= data.len() && n <= max_bytes || (n == 1 && max_bytes == 0),
    decreases data.len(),
{
    if data.len() > 0 && data[0] & 0x80 != 0 && max_bytes > 1 {
        lemma_varint_parse_len(data.drop_first(), (max_bytes - 1) as nat);
    }
}

/// Decoding a `VarInt` takes one to five bytes of those available.
pub proof fn lemma_read_varint_len(data: Seq<u8>)
    ensures
        spec_read_varint(data) matches Ok((v, n)) ==> 1 <= n <= 5 && n <= data.len(),
{
    lemma_varint_parse_len(data, 5);
}

/// The number that a sequence of 7-bit groups spells, least significant
/// group first: each byte's low seven bits are one base-128 digit, its top
/// bit aside.
pub open spec fn groups_value(s: Seq<u8>) -> int
    decreases s.len(),
{
    if s.len() == 0 {
        0
    } else {
        (s[0] & 0x7f) as int + 128 * groups_value(s.drop_first())
    }
}

/// Splitting off one group, and the unsigned pattern of a signed value.
proof fn lemma_group_facts(x: u32, b: u8, v: i32) by (bit_vector)
    requires
        b == ((x & 0x7f) | 0x80) as u8,
    ensures
        b & 0x80 != 0,
        (b & 0x7f) as u32 == x & 0x7f,
        (x & 0x7f) + (x >> 7u32) * 128 == x,
        x >= 0x80 ==> x >> 7u32 >= 1,
        x < 0x80 ==> (x as u8) as u32 == x && (x as u8) & 0x80 == 0 && (x as u8) & 0x7f == x as u8,
        v >= 0 ==> (v as u32) as i64 == v as i64,
        v < 0 ==> (v as u32) as i64 - (v as i64) == 0x1_0000_0000,
        x < 0x8000_0000 ==> (x as i32) as i64 == x as i64,
        x >= 0x8000_0000 ==> (x as i64) - ((x as i32) as i64) == 0x1_0000_0000,

{
}

/// The groups of a 32-bit pattern spell it, every group but the last has
/// its top bit set, the last has it clear, and the last is nonzero unless
/// it is the only one.
proof fn lemma_varint_bytes_digits(x: u32)
    ensures
        groups_value(varint_bytes(x)) == x,
        forall|k: int| 0 <= k < varint_bytes(x).len() - 1 ==> varint_bytes(x)[k] & 0x80 != 0,
        varint_bytes(x)[varint_bytes(x).len() - 1] & 0x80 == 0,
        varint_bytes(x).len() == 1 || varint_bytes(x)[varint_bytes(x).len() - 1] != 0,
        varint_bytes(x).len() == 1 ==> varint_bytes(x)[0] == x,
    decreases x,
{
    lemma_group_facts(x, ((x & 0x7f) | 0x80) as u8, 0);
    lemma_varint_bytes_len(x);
    let s = varint_bytes(x);
    if x < 0x80 {
        assert(s.drop_first() =~= Seq::<u8>::empty());
        assert(groups_value(s.drop_first()) == 0);
    } else {
        lemma_shr7_32(x);
        let t = varint_bytes(x >> 7u32);
        lemma_varint_bytes_digits(x >> 7u32);
        lemma_varint_bytes_len(x >> 7u32);
        assert(s.drop_first() =~= t);
        assert(s[s.len() - 1] == t[t.len() - 1]);
        assert forall|k: int| 0 <= k < s.len() - 1 implies s[k] & 0x80 != 0 by {
            if k > 0 {
                assert(s[k] == t[k - 1]);
            }
        }
    }
}

/// Placing a digit below a shifted pattern adds it to 128 times the
/// pattern, modulo 2^32.
proof fn lemma_digit_step(b: u8, w: u32) by (bit_vector)
    ensures
        (b & 0x7f) < 128,
        ((b & 0x7f) as u32) | (w << 7u32) == ((b & 0x7f) + w * 128) % 0x1_0000_0000,
{
}

/// Decoding groups up to the first one with its top bit clear, when that
/// one lies within `max_bytes`: the digits' number modulo 2^32.
proof fn lemma_varint_parse_digits(data: Seq<u8>, max_bytes: nat, k: int)
    requires
        0 <= k < data.len(),
        k < max_bytes,
        data[k] & 0x80 == 0,
        forall|m: int| 0 <= m < k ==> data[m] & 0x80 != 0,
    ensures
        varint_parse(data, max_bytes) matches Ok((w, n)) && n == k + 1 && w as int == groups_value(data.take(k + 1)) % 0x1_0000_0000,
    decreases k,
{
    let b = data[0];
    lemma_digit_step(b, 0);
    assert(data.take(k + 1).drop_first() =~= data.drop_first().take(k));
    if k == 0 {
        assert(data.take(1).drop_first() =~= Seq::<u8>::empty());
        assert(groups_value(data.take(1).drop_first()) == 0);
    } else {
        assert forall|m: int| 0 <= m < k - 1 implies data.drop_first()[m] & 0x80 != 0 by {
            assert(data.drop_first()[m] == data[m + 1]);
        }
        lemma_varint_parse_digits(data.drop_first(), (max_bytes - 1) as nat, k - 1);
        let w = varint_parse(data.drop_first(), (max_bytes - 1) as nat)->Ok_0.0;
        lemma_digit_step(b, w);
        let g = groups_value(data.drop_first().take(k));
        let d = (b & 0x7f) as int;
        assert(groups_value(data.take(k + 1)) == d + 128 * g);
        assert((d + 128 * (g % 0x1_0000_0000)) % 0x1_0000_0000 == (d + 128 * g) % 0x1_0000_0000) by {
            let q = g / 0x1_0000_0000;
            assert(g == q * 0x1_0000_0000 + g % 0x1_0000_0000);
            assert(d + 128 * g == (d + 128 * (g % 0x1_0000_0000)) + (128 * q) * 0x1_0000_0000);
            vstd::arithmetic::div_mod::lemma_mod_multiples_vanish(128 * q, d + 128 * (g % 0x1_0000_0000), 0x1_0000_0000);
        }
    }
}

/// Decoding groups that all have their top bit set, as far as `max_bytes`
/// reaches: too long if `max_bytes` of them are there, else the input ended.
proof fn lemma_varint_parse_unterminated(data: Seq<u8>, max_bytes: nat)
    requires
        max_bytes >= 1,
        forall|m: int| 0 <= m < data.len() && m < max_bytes ==> data[m] & 0x80 != 0,
    ensures
        varint_parse(data, max_bytes) == Err::<(u32, int), VarIntError>(
            if data.len() < max_bytes { VarIntError::UnexpectedEof } else { VarIntError::TooLong },
        ),
    decreases data.len(),
{
    if data.len() > 0 && max_bytes > 1 {
        assert forall|m: int| 0 <= m < data.drop_first().len() && m < max_bytes - 1 implies data.drop_first()[m] & 0x80 != 0 by {
            assert(data.drop_first()[m] == data[m + 1]);
        }
        lemma_varint_parse_unterminated(data.drop_first(), (max_bytes - 1) as nat);
    }
}

/// Decoding a `VarInt` reads base-128 digits, least significant first, up
/// to and including the first byte whose top bit is clear, when that byte
/// is among the first five: it consumes exactly those bytes, and the value
/// is the one `i32` equal, modulo 2^32, to the number the digits spell (its
/// two's-complement reading, bits beyond the 32nd dropped).
pub proof fn lemma_varint_read_digits(data: Seq<u8>, k: int)
    requires
        0 <= k < data.len(),
        k < 5,
        data[k] & 0x80 == 0,
        forall|m: int| 0 <= m < k ==> data[m] & 0x80 != 0,
    ensures
        spec_read_varint(data) matches Ok((v, n)) && n == k + 1
            && v as int % 0x1_0000_0000 == groups_value(data.take(k + 1)) % 0x1_0000_0000,
{
    lemma_varint_parse_digits(data, 5, k);
    let w = varint_parse(data, 5)->Ok_0.0;
    lemma_group_facts(w, ((w & 0x7f) | 0x80) as u8, 0);
}

/// Decoding a `VarInt` from bytes that all have their top bit set, as far
/// as the first five: five of them are too long, fewer mean the input
/// ended early.
pub proof fn lemma_varint_read_unterminated(data: Seq<u8>)
    requires
        forall|m: int| 0 <= m < data.len() && m < 5 ==> data[m] & 0x80 != 0,
    ensures
        spec_read_varint(data) == Err::<(i32, int), VarIntError>(
            if data.len() < 5 { VarIntError::UnexpectedEof } else { VarIntError::TooLong },
        ),
{
    lemma_varint_parse_unterminated(data, 5);
}

/// A `VarInt` goes on the wire as the base-128 digits of its 32-bit
/// two's-complement pattern, least significant first, in one to five bytes:
/// every byte but the last has its top bit set, the last has it clear, and
/// the last is nonzero unless it is the only byte (no needless zero group).
pub proof fn lemma_varint_wire_digits(v: i32)
    ensures
        1 <= spec_varint(v).len() <= 5,
        groups_value(spec_varint(v)) == (if v >= 0 { v as int } else { v + 0x1_0000_0000 }),
        forall|k: int| 0 <= k < spec_varint(v).len() - 1 ==> spec_varint(v)[k] & 0x80 != 0,
        spec_varint(v)[spec_varint(v).len() - 1] & 0x80 == 0,
        spec_varint(v).len() == 1 || spec_varint(v)[spec_varint(v).len() - 1] != 0,
{
    lemma_group_facts(0, ((0u32 & 0x7f) | 0x80) as u8, v);
    lemma_varint_bytes_len(v as u32);
    lemma_varint_bytes_digits(v as u32);
}

/// Splitting off one group of a 64-bit pattern, placing a digit below a
/// shifted pattern, and the unsigned pattern of a signed value.
proof fn lemma_group_facts64(x: u64, b: u8, c: u8, w: u64, v: i64) by (bit_vector)
    requires
        b == ((x & 0x7f) | 0x80) as u8,
    ensures
        b & 0x80 != 0,
        (b & 0x7f) as u64 == x & 0x7f,
        (x & 0x7f) + (x >> 7u64) * 128 == x,
        x >= 0x80 ==> x >> 7u64 >= 1,
        x < 0x80 ==> (x as u8) as u64 == x && (x as u8) & 0x80 == 0 && (x as u8) & 0x7f == x as u8,
        v >= 0 ==> (v as u64) as i128 == v as i128,
        v < 0 ==> (v as u64) as i128 - (v as i128) == 0x1_0000_0000_0000_0000,
        x < 0x8000_0000_0000_0000 ==> (x as i64) as i128 == x as i128,
        x >= 0x8000_0000_0000_0000 ==> (x as i128) - ((x as i64) as i128) == 0x1_0000_0000_0000_0000,
        (c & 0x7f) < 128,
        ((c & 0x7f) as u64) | (w << 7u64) == ((c & 0x7f) + w * 128) % 0x1_0000_0000_0000_0000,
{
}

/// The groups of a 64-bit pattern spell it, every group but the last has
/// its top bit set, the last has it clear, and the last is nonzero unless
/// it is the only one.
proof fn lemma_varlong_bytes_digits(x: u64)
    ensures
        groups_value(varlong_bytes(x)) == x,
        forall|k: int| 0 <= k < varlong_bytes(x).len() - 1 ==> varlong_bytes(x)[k] & 0x80 != 0,
        varlong_bytes(x)[varlong_bytes(x).len() - 1] & 0x80 == 0,
        varlong_bytes(x).len() == 1 || varlong_bytes(x)[varlong_bytes(x).len() - 1] != 0,
        varlong_bytes(x).len() == 1 ==> varlong_bytes(x)[0] == x,
    decreases x,
{
    lemma_group_facts64(x, ((x & 0x7f) | 0x80) as u8, 0, 0, 0);
    lemma_varlong_bytes_len(x);
    let s = varlong_bytes(x);
    if x < 0x80 {
        assert(s.drop_first() =~= Seq::<u8>::empty());
        assert(groups_value(s.drop_first()) == 0);
    } else {
        lemma_shr7_64(x);
        let t = varlong_bytes(x >> 7u64);
        lemma_varlong_bytes_digits(x >> 7u64);
        lemma_varlong_bytes_len(x >> 7u64);
        assert(s.drop_first() =~= t);
        assert(s[s.len() - 1] == t[t.len() - 1]);
        assert forall|k: int| 0 <= k < s.len() - 1 implies s[k] & 0x80 != 0 by {
            if k > 0 {
                assert(s[k] == t[k - 1]);
            }
        }
    }
}

/// A `VarLong` goes on the wire as the base-128 digits of its 64-bit
/// two's-complement pattern, least significant first, in one to ten bytes:
/// every byte but the last has its top bit set, the last has it clear, and
/// the last is nonzero unless it is the only byte.
pub proof fn lemma_varlong_wire_digits(v: i64)
    ensures
        1 <= spec_varlong(v).len() <= 10,
        groups_value(spec_varlong(v)) == (if v >= 0 { v as int } else { v + 0x1_0000_0000_0000_0000 }),
        forall|k: int| 0 <= k < spec_varlong(v).len() - 1 ==> spec_varlong(v)[k] & 0x80 != 0,
        spec_varlong(v)[spec_varlong(v).len() - 1] & 0x80 == 0,
        spec_varlong(v).len() == 1 || spec_varlong(v)[spec_varlong(v).len() - 1] != 0,
{
    lemma_group_facts64(0, ((0u64 & 0x7f) | 0x80) as u8, 0, 0, v);
    lemma_varlong_bytes_len(v as u64);
    lemma_varlong_bytes_digits(v as u64);
}

/// Decoding 64-bit groups up to the first one with its top bit clear, when
/// that one lies within `max_bytes`: the digits' number modulo 2^64.
proof fn lemma_varlong_parse_digits(data: Seq<u8>, max_bytes: nat, k: int)
    requires
        0 <= k < data.len(),
        k < max_bytes,
        data[k] & 0x80 == 0,
        forall|m: int| 0 <= m < k ==> data[m] & 0x80 != 0,
    ensures
        varlong_parse(data, max_bytes) matches Ok((w, n)) && n == k + 1
            && w as int == groups_value(data.take(k + 1)) % 0x1_0000_0000_0000_0000,
    decreases k,
{
    let b = data[0];
    lemma_group_facts64(0, ((0u64 & 0x7f) | 0x80) as u8, b, 0, 0);
    assert(data.take(k + 1).drop_first() =~= data.drop_first().take(k));
    if k == 0 {
        assert(data.take(1).drop_first() =~= Seq::<u8>::empty());
        assert(groups_value(data.take(1).drop_first()) == 0);
    } else {
        assert forall|m: int| 0 <= m < k - 1 implies data.drop_first()[m] & 0x80 != 0 by {
            assert(data.drop_first()[m] == data[m + 1]);
        }
        lemma_varlong_parse_digits(data.drop_first(), (max_bytes - 1) as nat, k - 1);
        let w = varlong_parse(data.drop_first(), (max_bytes - 1) as nat)->Ok_0.0;
        lemma_group_facts64(0, ((0u64 & 0x7f) | 0x80) as u8, b, w, 0);
        let g = groups_value(data.drop_first().take(k));
        let d = (b & 0x7f) as int;
        let m: int = 0x1_0000_0000_0000_0000;
        assert(groups_value(data.take(k + 1)) == d + 128 * g);
        assert((d + 128 * (g % m)) % m == (d + 128 * g) % m) by {
            let q = g / m;
            assert(g == q * m + g % m);
            assert(d + 128 * g == (d + 128 * (g % m)) + (128 * q) * m);
            vstd::arithmetic::div_mod::lemma_mod_multiples_vanish(128 * q, d + 128 * (g % m), m);
        }
    }
}

/// Decoding 64-bit groups that all have their top bit set, as far as
/// `max_bytes` reaches: too long if `max_bytes` of them are there, else the
/// input ended.
proof fn lemma_varlong_parse_unterminated(data: Seq<u8>, max_bytes: nat)
    requires
        max_bytes >= 1,
        forall|m: int| 0 <= m < data.len() && m < max_bytes ==> data[m] & 0x80 != 0,
    ensures
        varlong_parse(data, max_bytes) == Err::<(u64, int), VarIntError>(
            if data.len() < max_bytes { VarIntError::UnexpectedEof } else { VarIntError::TooLong },
        ),
    decreases data.len(),
{
    if data.len() > 0 && max_bytes > 1 {
        assert forall|m: int| 0 <= m < data.drop_first().len() && m < max_bytes - 1 implies data.drop_first()[m] & 0x80 != 0 by {
            assert(data.drop_first()[m] == data[m + 1]);
        }
        lemma_varlong_parse_unterminated(data.drop_first(), (max_bytes - 1) as nat);
    }
}

/// Decoding a `VarLong` reads base-128 digits, least significant first, up
/// to and including the first byte whose top bit is clear, when that byte
/// is among the first ten: it consumes exactly those bytes, and the value is
/// the one `i64` equal, modulo 2^64, to the number the digits spell.
pub proof fn lemma_varlong_read_digits(data: Seq<u8>, k: int)
    requires
        0 <= k < data.len(),
        k < 10,
        data[k] & 0x80 == 0,
        forall|m: int| 0 <= m < k ==> data[m] & 0x80 != 0,
    ensures
        spec_read_varlong(data) matches Ok((v, n)) && n == k + 1
            && v as int % 0x1_0000_0000_0000_0000 == groups_value(data.take(k + 1)) % 0x1_0000_0000_0000_0000,
{
    lemma_varlong_parse_digits(data, 10, k);
    let w = varlong_parse(data, 10)->Ok_0.0;
    lemma_group_facts64(w, ((w & 0x7f) | 0x80) as u8, 0, 0, 0);
}

/// Decoding a `VarLong` from bytes that all have their top bit set, as far
/// as the first ten: ten of them are too long, fewer mean the input ended
/// early.
pub proof fn lemma_varlong_read_unterminated(data: Seq<u8>)
    requires
        forall|m: int| 0 <= m < data.len() && m < 10 ==> data[m] & 0x80 != 0,
    ensures
        spec_read_varlong(data) == Err::<(i64, int), VarIntError>(
            if data.len() < 10 { VarIntError::UnexpectedEof } else { VarIntError::TooLong },
        ),
{
    lemma_varlong_parse_unterminated(data, 10);
}

/// Negative values take the full ten bytes, values below 128 one byte.
pub proof fn lemma_varlong_len_extremes(v: i64)
    ensures
        v < 0 ==> spec_varlong(v).len() == 10,
        0 <= v < 0x80 ==> spec_varlong(v).len() == 1,
{
    reveal_with_fuel(varlong_bytes, 11);
    let x = v as u64;
    if v < 0 {
        assert(v < 0 ==> x >= 0x8000_0000_0000_0000u64) by (bit_vector)
            requires x == v as u64;
        assert(x >= 0x8000_0000_0000_0000u64 ==> x >= 0x80 && x >> 7u64 >= 0x80 && x >> 7u64 >> 7u64 >= 0x80
            && x >> 7u64 >> 7u64 >> 7u64 >= 0x80 && x >> 7u64 >> 7u64 >> 7u64 >> 7u64 >= 0x80
            && x >> 7u64 >> 7u64 >> 7u64 >> 7u64 >> 7u64 >= 0x80 && x >> 7u64 >> 7u64 >> 7u64 >> 7u64 >> 7u64 >> 7u64 >= 0x80
            && x >> 7u64 >> 7u64 >> 7u64 >> 7u64 >> 7u64 >> 7u64 >> 7u64 >= 0x80
            && x >> 7u64 >> 7u64 >> 7u64 >> 7u64 >> 7u64 >> 7u64 >> 7u64 >> 7u64 >= 0x80
            && x >> 7u64 >> 7u64 >> 7u64 >> 7u64 >> 7u64 >> 7u64 >> 7u64 >> 7u64 >> 7u64 < 0x80) by (bit_vector);
    }
}

impl RoundTrip for VarInt {
    proof fn lemma_round_trip(&self, rest: Seq<u8>) {
        lemma_varint_encode_decode(self.0, rest);
    }
}

impl RoundTrip for VarLong {
    proof fn lemma_round_trip(&self, rest: Seq<u8>) {
        lemma_varlong_encode_decode(self.0, rest);
    }
}


impl From<i32> for VarInt {
    fn from(v: i32) -> (r: VarInt) {
        VarInt(v)
    }
}

impl vstd::std_specs::convert::FromSpecImpl<i32> for VarInt {
    open spec fn obeys_from_spec() -> bool {
        true
    }

    open spec fn from_spec(v: i32) -> VarInt {
        VarInt(v)
    }
}

impl From<VarInt> for i32 {
    fn from(v: VarInt) -> (r: i32) {
        v.0
    }
}

impl vstd::std_specs::convert::FromSpecImpl<VarInt> for i32 {
    open spec fn obeys_from_spec() -> bool {
        true
    }

    open spec fn from_spec(v: VarInt) -> i32 {
        v.0
    }
}

impl From<i64> for VarLong {
    fn from(v: i64) -> (r: VarLong) {
        VarLong(v)
    }
}

impl vstd::std_specs::convert::FromSpecImpl<i64> for VarLong {
    open spec fn obeys_from_spec() -> bool {
        true
    }

    open spec fn from_spec(v: i64) -> VarLong {
        VarLong(v)
    }
}

impl From<VarLong> for i64 {
    fn from(v: VarLong) -> (r: i64) {
        v.0
    }
}

impl vstd::std_specs::convert::FromSpecImpl<VarLong> for i64 {
    open spec fn obeys_from_spec() -> bool {
        true
    }

    open spec fn from_spec(v: VarLong) -> i64 {
        v.0
    }
}


/// Decodes a `VarInt` one byte at a time, for input that arrives as a stream.
pub struct VarIntDecoder {
    value: u32,
    count: usize,
    consumed: Ghost<Seq<u8>>,
}

/// What feeding one more byte to a `VarIntDecoder` gives.
pub enum VarIntStep {
    /// The value continues; feed the next byte to this decoder.
    NeedMore(VarIntDecoder),
    /// The value is complete.
    Done(VarInt),
    /// The bytes cannot start a `VarInt`.
    Failed(VarIntError),
}

impl VarIntDecoder {
    #[verifier::type_invariant]
    spec fn inv(self) -> bool {
        &&& self.count < 5
        &&& self.consumed@.len() == self.count
        &&& forall|more: Seq<u8>| #[trigger] varint_parse(self.consumed@ + more, 5) == resume32(
            varint_parse(more, (5 - self.count) as nat),
            self.value,
            self.count as nat,
        )
    }

    /// The bytes fed so far.
    pub closed spec fn consumed(&self) -> Seq<u8> {
        self.consumed@
    }

    /// A decoder that has been fed nothing.
    pub fn new() -> (d: Self)
        ensures
            d.consumed() == Seq::<u8>::empty(),
    {
        proof {
            assert forall|more: Seq<u8>| #[trigger] varint_parse(Seq::<u8>::empty() + more, 5) == resume32(
                varint_parse(more, 5),
                0,
                0,
            ) by {
                assert(Seq::<u8>::empty() + more =~= more);
                match varint_parse(more, 5) {
                    Ok((v, n)) => {
                        lemma_place_group_32(0, 0, v, 0);
                    },
                    Err(_) => {},
                }
            }
        }
        VarIntDecoder { value: 0, count: 0, consumed: Ghost(Seq::empty()) }
    }

    /// Feed the next byte. The outcome is that of decoding every byte fed so
    /// far: complete, incomplete, or too long.
    pub fn feed(self, byte: u8) -> (r: VarIntStep)
        ensures
            match spec_read_varint(self.consumed().push(byte)) {
                Ok((v, n)) => r == VarIntStep::Done(VarInt(v)) && n == self.consumed().len() + 1,
                Err(VarIntError::UnexpectedEof) => r matches VarIntStep::NeedMore(d) && d.consumed() == self.consumed().push(byte),
                Err(e) => r == VarIntStep::Failed(e),
            },
    {
        proof {
            use_type_invariant(&self);
        }
        let ghost all = self.consumed@.push(byte);
        let ghost k = self.count as nat;
        proof {
            assert(all =~= self.consumed@ + seq![byte]);
            assert(varint_parse(self.consumed@ + seq![byte], 5) == resume32(varint_parse(seq![byte], (5 - k) as nat), self.value, k));
            assert(seq![byte].drop_first() =~= Seq::<u8>::empty());
        }
        let shift: u32 = (7 * self.count) as u32;
        let part: u32 = ((byte & 0x7f) as u32) << shift;
        if byte & 0x80 == 0 {
            return VarIntStep::Done(VarInt((self.value | part) as i32));
        }
        if self.count == 4 {
            return VarIntStep::Failed(VarIntError::TooLong);
        }
        let new_value = self.value | part;
        proof {
            assert forall|more: Seq<u8>| #[trigger] varint_parse(all + more, 5) == resume32(
                varint_parse(more, (5 - k - 1) as nat),
                self.value | part,
                k + 1,
            ) by {
                let b7 = (byte & 0x7f) as u32;
                let acc = self.value;
                assert(all + more =~= self.consumed@ + (seq![byte] + more));
                assert((seq![byte] + more)[0] == byte);
                assert((seq![byte] + more).drop_first() =~= more);
                match varint_parse(more, (5 - k - 1) as nat) {
                    Ok((v, n)) => {
                        lemma_place_group_32(acc, b7, v, shift);
                    },
                    Err(_) => {},
                }
            }
            assert(varint_parse(all + Seq::<u8>::empty(), 5) == resume32(varint_parse(Seq::<u8>::empty(), (5 - k - 1) as nat), self.value | part, k + 1));
            assert(all + Seq::<u8>::empty() =~= all);
        }
        let next = VarIntDecoder { value: new_value, count: self.count + 1, consumed: Ghost(all) };
        VarIntStep::NeedMore(next)
    }
}

} // verus!
