//! Composite protocol data types: block positions, angles, namespaced
//! identifiers, bit sets, raw NBT, fixed-point numbers and teleport flags.

use vstd::prelude::*;
use crate::num::{be32, be64, fixed_width, from_be32, from_be64, read_be32, read_be64, write_be32, write_be64, lemma_be32_roundtrip, lemma_be64_roundtrip, lemma_i32_bits};
use crate::ser::{append_bytes, Cursor, Deserialize, RoundTrip, SerializationError, Serialize, advanced, MAX_STRING_LEN, spec_string_with_max, spec_parse_string_with_max, serialize_string_with_max, deserialize_string_with_max, lemma_string_round_trip};
use vstd::string::*;

verus! {

/// A block position, packed on the wire into one big-endian 64-bit value:
/// x in bits 63..38 (26 bits), z in bits 37..12 (26 bits), y in bits 11..0
/// (12 bits), each in two's complement. x and z range over
/// -33554432..=33554431, y over -2048..=2047.
#[derive(Debug, Clone, Copy, PartialEq, Eq, Hash, Default)]
pub struct Position {
    /// X coordinate (-33554432 to 33554431).
    pub x: i32,
    /// Y coordinate (-2048 to 2047).
    pub y: i32,
    /// Z coordinate (-33554432 to 33554431).
    pub z: i32,
}

/// The packed 64-bit value of a position: the low 26 bits of x, of z and the
/// low 12 bits of y, in that order from the top.
pub open spec fn position_bits(p: Position) -> u64 {
    (((p.x as u64) & 0x3FF_FFFF) << 38u64) | (((p.z as u64) & 0x3FF_FFFF) << 12u64) | ((p.y as u64) & 0xFFF)
}

/// The value of a 26-bit two's-complement field.
pub open spec fn signed26(u: int) -> i32 {
    if u >= 0x200_0000 {
        (u - 0x400_0000) as i32
    } else {
        u as i32
    }
}

/// The value of a 12-bit two's-complement field.
pub open spec fn signed12(u: int) -> i32 {
    if u >= 0x800 {
        (u - 0x1000) as i32
    } else {
        u as i32
    }
}

/// The position that a packed 64-bit value holds.
pub open spec fn position_from_bits(v: u64) -> Position {
    Position {
        x: signed26((v >> 38u64) as int),
        y: signed12((v & 0xFFF) as int),
        z: signed26(((v >> 12u64) & 0x3FF_FFFF) as int),
    }
}

/// The coordinates fit their fields.
pub open spec fn position_in_range(p: Position) -> bool {
    &&& -0x200_0000 <= p.x < 0x200_0000
    &&& -0x800 <= p.y < 0x800
    &&& -0x200_0000 <= p.z < 0x200_0000
}

impl Position {
    /// Create a new `Position`.
    pub fn new(x: i32, y: i32, z: i32) -> (p: Self)
        ensures
            p == (Position { x, y, z }),
    {
        Position { x, y, z }
    }
}

impl DeepView for Position {
    type V = Position;

    open spec fn deep_view(&self) -> Position {
        *self
    }
}

impl Serialize for Position {
    open spec fn spec_serialize(&self) -> Result<Seq<u8>, SerializationError> {
        Ok(be64(position_bits(*self)))
    }

    fn serialize(&self, buf: &mut Vec<u8>) -> (r: Result<(), SerializationError>) {
        let encoded: u64 = (((self.x as u64) & 0x3FF_FFFF) << 38) | (((self.z as u64) & 0x3FF_FFFF) << 12) | ((self.y as u64)
            & 0xFFF);
        write_be64(encoded, buf);
        Ok(())
    }
}

impl Deserialize for Position {
    open spec fn spec_deserialize(data: Seq<u8>) -> Result<(Position, int), SerializationError> {
        fixed_width(data, 8, position_from_bits(from_be64(data)))
    }

    fn deserialize(reader: &mut Cursor) -> (r: Result<Position, SerializationError>) {
        let val = match read_be64(reader) {
            Ok(v) => v,
            Err(e) => return Err(e),
        };
        assert(val >> 38u64 < 0x400_0000 && (val >> 12u64) & 0x3FF_FFFF < 0x400_0000 && val & 0xFFF < 0x1000) by (bit_vector);
        let mut x = (val >> 38) as i32;
        let mut y = (val & 0xFFF) as i32;
        let mut z = ((val >> 12) & 0x3FF_FFFF) as i32;
        if x >= 0x200_0000 {
            x -= 0x400_0000;
        }
        if y >= 0x800 {
            y -= 0x1000;
        }
        if z >= 0x200_0000 {
            z -= 0x400_0000;
        }
        Ok(Position { x, y, z })
    }
}

/// A coordinate that fits its field is recovered from the field's low bits.
proof fn lemma_field26(x: i32)
    requires
        -0x200_0000 <= x < 0x200_0000,
    ensures
        signed26(((x as u64) & 0x3FF_FFFF) as int) == x,
{
    if x >= 0 {
        assert(0 <= x < 0x200_0000 ==> (x as u64) & 0x3FF_FFFF == x as u64) by (bit_vector);
    } else {
        assert(-0x200_0000 <= x < 0 ==> (x as u64) & 0x3FF_FFFF == (x + 0x400_0000) as u64) by (bit_vector);
    }
}

proof fn lemma_field12(y: i32)
    requires
        -0x800 <= y < 0x800,
    ensures
        signed12(((y as u64) & 0xFFF) as int) == y,
{
    if y >= 0 {
        assert(0 <= y < 0x800 ==> (y as u64) & 0xFFF == y as u64) by (bit_vector);
    } else {
        assert(-0x800 <= y < 0 ==> (y as u64) & 0xFFF == (y + 0x1000) as u64) by (bit_vector);
    }
}

/// Unpacking a packed position gives each coordinate back as the
/// two's-complement value of its field's low bits.
pub proof fn lemma_position_bits(p: Position)
    ensures
        position_from_bits(position_bits(p)) == (Position {
            x: signed26(((p.x as u64) & 0x3FF_FFFF) as int),
            y: signed12(((p.y as u64) & 0xFFF) as int),
            z: signed26(((p.z as u64) & 0x3FF_FFFF) as int),
        }),
{
    let a = p.x as u64;
    let b = p.z as u64;
    let c = p.y as u64;
    let v = position_bits(p);
    assert(v == ((a & 0x3FF_FFFF) << 38u64) | ((b & 0x3FF_FFFF) << 12u64) | (c & 0xFFF));
    assert((((a & 0x3FF_FFFF) << 38u64) | ((b & 0x3FF_FFFF) << 12u64) | (c & 0xFFF)) >> 38u64 == a & 0x3FF_FFFF) by (bit_vector);
    assert(((((a & 0x3FF_FFFF) << 38u64) | ((b & 0x3FF_FFFF) << 12u64) | (c & 0xFFF)) >> 12u64) & 0x3FF_FFFF == b & 0x3FF_FFFF) by (bit_vector);
    assert((((a & 0x3FF_FFFF) << 38u64) | ((b & 0x3FF_FFFF) << 12u64) | (c & 0xFFF)) & 0xFFF == c & 0xFFF) by (bit_vector);
}

/// A position whose coordinates fit their fields is decoded back from its
/// encoding, which takes 8 bytes, whatever follows it.
pub proof fn lemma_position_round_trip(p: Position, rest: Seq<u8>)
    requires
        position_in_range(p),
    ensures
        p.spec_serialize() is Ok,
        Position::spec_deserialize(p.spec_serialize()->Ok_0 + rest) == Ok::<(Position, int), SerializationError>((p, 8)),
{
    lemma_be64_roundtrip(position_bits(p), rest);
    lemma_position_bits(p);
    lemma_field26(p.x);
    lemma_field26(p.z);
    lemma_field12(p.y);
}

/// The eight bytes of a packed word, big-endian, hold its fields: bits
/// 63..38, 37..12 and 11..0.
proof fn lemma_packed_word_bytes(v: u64, d0: u8, d1: u8, d2: u8, d3: u8, d4: u8, d5: u8, d6: u8, d7: u8)
    by (bit_vector)
    requires
        v == ((d0 as u64) << 56u64) | ((d1 as u64) << 48u64) | ((d2 as u64) << 40u64) | ((d3 as u64) << 32u64)
            | ((d4 as u64) << 24u64) | ((d5 as u64) << 16u64) | ((d6 as u64) << 8u64) | (d7 as u64),
    ensures
        d0 * 0x4_0000 + d1 * 0x400 + d2 * 4 + d3 / 64 == v >> 38u64,
        (d3 % 64) * 0x10_0000 + d4 * 0x1000 + d5 * 16 + d6 / 16 == (v >> 12u64) & 0x3FF_FFFF,
        (d6 % 16) * 0x100 + d7 == v & 0xFFF,
{
}

/// Packing three coordinates puts the low bits of each in its field.
proof fn lemma_pack_fields(x: u64, z: u64, y: u64) by (bit_vector)
    ensures
        ((((x & 0x3FF_FFFF) << 38u64) | ((z & 0x3FF_FFFF) << 12u64) | (y & 0xFFF)) >> 38u64) == x & 0x3FF_FFFF,
        ((((x & 0x3FF_FFFF) << 38u64) | ((z & 0x3FF_FFFF) << 12u64) | (y & 0xFFF)) >> 12u64) & 0x3FF_FFFF == z & 0x3FF_FFFF,
        (((x & 0x3FF_FFFF) << 38u64) | ((z & 0x3FF_FFFF) << 12u64) | (y & 0xFFF)) & 0xFFF == y & 0xFFF,
{
}

/// A field's two's-complement value lies in the field's range and has the
/// field as its low bits.
proof fn lemma_signed_fields(u: u64, w: u64) by (bit_vector)
    requires
        u < 0x400_0000,
        w < 0x1000,
    ensures
        u >= 0x200_0000 ==> ((((u - 0x400_0000) as i32) as u64) & 0x3FF_FFFF == u && -0x200_0000 <= ((u - 0x400_0000) as i32) < 0),
        u < 0x200_0000 ==> (((u as i32) as u64) & 0x3FF_FFFF == u && 0 <= (u as i32) < 0x200_0000),
        w >= 0x800 ==> ((((w - 0x1000) as i32) as u64) & 0xFFF == w && -0x800 <= ((w - 0x1000) as i32) < 0),
        w < 0x800 ==> (((w as i32) as u64) & 0xFFF == w && 0 <= (w as i32) < 0x800),
{
}

/// A position goes on the wire as eight bytes whose big-endian bits 63..38
/// are the low 26 bits of x, bits 37..12 the low 26 bits of z and bits 11..0
/// the low 12 bits of y.
pub proof fn lemma_position_wire_layout(p: Position)
    ensures
        p.spec_serialize() matches Ok(s) && s.len() == 8
            && s[0] * 0x4_0000 + s[1] * 0x400 + s[2] * 4 + s[3] / 64 == (p.x as u64) & 0x3FF_FFFF
            && (s[3] % 64) * 0x10_0000 + s[4] * 0x1000 + s[5] * 16 + s[6] / 16 == (p.z as u64) & 0x3FF_FFFF
            && (s[6] % 16) * 0x100 + s[7] == (p.y as u64) & 0xFFF,
{
    let v = position_bits(p);
    let s = be64(v);
    lemma_be64_roundtrip(v, Seq::empty());
    assert(s + Seq::<u8>::empty() =~= s);
    lemma_pack_fields(p.x as u64, p.z as u64, p.y as u64);
    lemma_packed_word_bytes(v, s[0], s[1], s[2], s[3], s[4], s[5], s[6], s[7]);
}

/// Reading a position takes eight bytes, and gives each coordinate as the
/// one number in its field's range whose low bits are that field: x from
/// bits 63..38, z from bits 37..12, y from bits 11..0 of the big-endian word.
/// Fewer than eight bytes are an end-of-input error.
pub proof fn lemma_position_wire_read(data: Seq<u8>)
    ensures
        data.len() < 8 ==> Position::spec_deserialize(data) == Err::<(Position, int), SerializationError>(
            SerializationError::UnexpectedEof,
        ),
        data.len() >= 8 ==> (Position::spec_deserialize(data) matches Ok((q, n)) && n == 8
            && -0x200_0000 <= q.x < 0x200_0000 && -0x800 <= q.y < 0x800 && -0x200_0000 <= q.z < 0x200_0000
            && (q.x as u64) & 0x3FF_FFFF == data[0] * 0x4_0000 + data[1] * 0x400 + data[2] * 4 + data[3] / 64
            && (q.z as u64) & 0x3FF_FFFF == (data[3] % 64) * 0x10_0000 + data[4] * 0x1000 + data[5] * 16 + data[6] / 16
            && (q.y as u64) & 0xFFF == (data[6] % 16) * 0x100 + data[7]),
{
    if data.len() >= 8 {
        let v = from_be64(data);
        lemma_packed_word_bytes(v, data[0], data[1], data[2], data[3], data[4], data[5], data[6], data[7]);
        lemma_signed_fields(v >> 38u64, v & 0xFFF);
        lemma_signed_fields((v >> 12u64) & 0x3FF_FFFF, 0);
    }
}

/// A rotation in 1/256 steps of a full turn.
#[derive(Debug, Clone, Copy, PartialEq, Eq, Hash, Default)]
pub struct Angle(pub u8);

impl DeepView for Angle {
    type V = Angle;

    open spec fn deep_view(&self) -> Angle {
        *self
    }
}

impl Serialize for Angle {
    open spec fn spec_serialize(&self) -> Result<Seq<u8>, SerializationError> {
        Ok(seq![self.0])
    }

    fn serialize(&self, buf: &mut Vec<u8>) -> (r: Result<(), SerializationError>) {
        buf.push(self.0);
        assert(final(buf)@ =~= old(buf)@ + seq![self.0]);
        Ok(())
    }
}

impl Deserialize for Angle {
    open spec fn spec_deserialize(data: Seq<u8>) -> Result<(Angle, int), SerializationError> {
        fixed_width(data, 1, Angle(data[0]))
    }

    fn deserialize(reader: &mut Cursor) -> (r: Result<Angle, SerializationError>) {
        match reader.read_u8() {
            Ok(b) => Ok(Angle(b)),
            Err(e) => Err(e),
        }
    }
}

impl RoundTrip for Angle {
    proof fn lemma_round_trip(&self, rest: Seq<u8>) {
        assert((seq![self.0] + rest)[0] == self.0);
    }
}


/// Whether bit `i` is set in a long array: bit `i % 64` of long `i / 64`,
/// absent longs counting as zero.
pub open spec fn bitset_get(data: Seq<i64>, i: int) -> bool {
    let word = i / 64;
    let bit = (i % 64) as usize;
    word < data.len() && (data[word] >> bit) & 1i64 == 1i64
}

/// `data` extended with zero longs to at least `n` longs.
pub open spec fn pad_longs(data: Seq<i64>, n: int) -> Seq<i64> {
    if data.len() >= n {
        data
    } else {
        data + Seq::new((n - data.len()) as nat, |k: int| 0i64)
    }
}

/// The long array with bit `i` set, grown as far as needed.
pub open spec fn bitset_set(data: Seq<i64>, i: int) -> Seq<i64> {
    let word = i / 64;
    let bit = (i % 64) as usize;
    let padded = pad_longs(data, word + 1);
    padded.update(word, padded[word] | (1i64 << bit))
}

/// The long array with bit `i` cleared; its length is unchanged.
pub open spec fn bitset_clear(data: Seq<i64>, i: int) -> Seq<i64> {
    let word = i / 64;
    let bit = (i % 64) as usize;
    if word < data.len() {
        data.update(word, data[word] & !(1i64 << bit))
    } else {
        data
    }
}

/// A length-prefixed bit array: a `VarInt` count of longs, then the longs.
#[derive(Debug, Clone, PartialEq, Eq, Default)]
pub struct BitSet {
    /// Raw long array backing the bit set.
    pub data: Vec<i64>,
}

impl BitSet {
    /// Create an empty `BitSet`.
    pub fn new() -> (b: Self)
        ensures
            b.data@ == Seq::<i64>::empty(),
    {
        BitSet { data: Vec::new() }
    }

    /// Create a zeroed `BitSet` of `ceil(n_bits / 64)` longs.
    pub fn with_capacity(n_bits: usize) -> (b: Self)
        requires
            n_bits + 63 <= usize::MAX,
        ensures
            b.data@ == Seq::new(((n_bits + 63) / 64) as nat, |k: int| 0i64),
    {
        let n_longs = (n_bits + 63) / 64;
        let data = vec![0i64; n_longs];
        assert(data@ =~= Seq::new(((n_bits + 63) / 64) as nat, |k: int| 0i64));
        BitSet { data }
    }

    /// Test whether bit `i` is set.
    pub fn get(&self, i: usize) -> (r: bool)
        ensures
            r == bitset_get(self.data@, i as int),
    {
        let word = i / 64;
        let bit = i % 64;
        if word >= self.data.len() {
            return false;
        }
        (self.data[word] >> bit) & 1 == 1
    }

    /// Set bit `i`, growing the array as needed.
    pub fn set(&mut self, i: usize)
        ensures
            final(self).data@ == bitset_set(old(self).data@, i as int),
    {
        let word = i / 64;
        let bit = i % 64;
        let ghost start = self.data@;
        while self.data.len() <= word
            invariant
                word == i / 64,
                start == old(self).data@,
                self.data@.len() <= if start.len() > word + 1 { start.len() as int } else { word + 1 },
                self.data@ == pad_longs(start, self.data@.len() as int),
            decreases word + 1 - self.data@.len(),
        {
            self.data.push(0);
            assert(self.data@ =~= pad_longs(start, self.data@.len() as int));
        }
        assert(self.data@ =~= pad_longs(start, word + 1));
        let updated = self.data[word] | (1i64 << bit);
        self.data.set(word, updated);
    }

    /// Clear bit `i`; the array keeps its length.
    pub fn clear(&mut self, i: usize)
        ensures
            final(self).data@ == bitset_clear(old(self).data@, i as int),
    {
        let word = i / 64;
        let bit = i % 64;
        if word < self.data.len() {
            let updated = self.data[word] & !(1i64 << bit);
            self.data.set(word, updated);
        }
    }
}

/// Setting bit `i` sets it and leaves every other bit as it was.
pub proof fn lemma_bitset_set_get(data: Seq<i64>, i: int, j: int)
    requires
        0 <= i,
        0 <= j,
    ensures
        bitset_get(bitset_set(data, i), j) == (j == i || bitset_get(data, j)),
{
    let wi = i / 64;
    let wj = j / 64;
    let bi = (i % 64) as usize;
    let bj = (j % 64) as usize;
    let padded = pad_longs(data, wi + 1);
    assert(bj < 64 ==> (0i64 >> bj) & 1i64 == 0i64) by (bit_vector);
    if wj == wi {
        let x = padded[wi];
        assert(bi < 64 && bj < 64 ==> ((((x | (1i64 << bi)) >> bj) & 1i64 == 1i64) == (bi == bj || (x >> bj) & 1i64 == 1i64))) by (bit_vector);
        if wi >= data.len() {
            assert(padded[wi] == 0i64);
        }
    } else if wj < padded.len() && wj >= data.len() {
        assert(padded[wj] == 0i64);
    }
}

/// Clearing bit `i` clears it and leaves every other bit as it was.
pub proof fn lemma_bitset_clear_get(data: Seq<i64>, i: int, j: int)
    requires
        0 <= i,
        0 <= j,
    ensures
        bitset_get(bitset_clear(data, i), j) == (j != i && bitset_get(data, j)),
{
    let wi = i / 64;
    let wj = j / 64;
    let bi = (i % 64) as usize;
    let bj = (j % 64) as usize;
    if wj == wi && wi < data.len() {
        let x = data[wi];
        assert(bi < 64 && bj < 64 ==> ((((x & !(1i64 << bi)) >> bj) & 1i64 == 1i64) == (bi != bj && (x >> bj) & 1i64 == 1i64))) by (bit_vector);
    }
}

/// Testing a bit by shifting it down is testing it against its mask.
proof fn lemma_long_bit(x: i64, b: usize) by (bit_vector)
    requires
        b < 64,
    ensures
        ((x >> b) & 1i64 == 1i64) == ((x as u64) & (1u64 << (b as u64)) != 0),
{
}

/// Bit `i` of a long array is bit `i % 64`, counted from the least
/// significant, of long `i / 64`; longs past the end count as zero.
pub proof fn lemma_bitset_get_bit(data: Seq<i64>, i: int)
    requires
        0 <= i,
    ensures
        bitset_get(data, i) == (i / 64 < data.len() && (data[i / 64] as u64) & (1u64 << ((i % 64) as u64)) != 0),
{
    lemma_long_bit(data[i / 64], (i % 64) as usize);
}

/// Setting bit `i` grows the array with zero longs to at least `i / 64 + 1`
/// longs, sets bit `i % 64` of long `i / 64`, and leaves every other bit as
/// it was.
pub proof fn lemma_bitset_set_bits(data: Seq<i64>, i: int, j: int)
    requires
        0 <= i,
        0 <= j,
    ensures
        bitset_set(data, i).len() == (if data.len() > i / 64 { data.len() as int } else { i / 64 + 1 }),
        j / 64 < bitset_set(data, i).len() ==> (((bitset_set(data, i)[j / 64] as u64) & (1u64 << ((j % 64) as u64)) != 0)
            == (j == i || (j / 64 < data.len() && (data[j / 64] as u64) & (1u64 << ((j % 64) as u64)) != 0))),
{
    lemma_bitset_set_get(data, i, j);
    lemma_bitset_get_bit(bitset_set(data, i), j);
    lemma_bitset_get_bit(data, j);
}

/// Clearing bit `i` keeps the array's length, clears bit `i % 64` of long
/// `i / 64`, and leaves every other bit as it was.
pub proof fn lemma_bitset_clear_bits(data: Seq<i64>, i: int, j: int)
    requires
        0 <= i,
        0 <= j,
    ensures
        bitset_clear(data, i).len() == data.len(),
        j / 64 < data.len() ==> (((bitset_clear(data, i)[j / 64] as u64) & (1u64 << ((j % 64) as u64)) != 0)
            == (j != i && (data[j / 64] as u64) & (1u64 << ((j % 64) as u64)) != 0)),
{
    lemma_bitset_clear_get(data, i, j);
    lemma_bitset_get_bit(bitset_clear(data, i), j);
    lemma_bitset_get_bit(data, j);
}

impl DeepView for BitSet {
    type V = Seq<i64>;

    open spec fn deep_view(&self) -> Seq<i64> {
        self.data@
    }
}

impl Serialize for BitSet {
    /// Encoded as the long array: a `VarInt` count, then each long big-endian.
    open spec fn spec_serialize(&self) -> Result<Seq<u8>, SerializationError> {
        self.data.spec_serialize()
    }

    fn serialize(&self, buf: &mut Vec<u8>) -> (r: Result<(), SerializationError>) {
        self.data.serialize(buf)
    }
}

impl Deserialize for BitSet {
    open spec fn spec_deserialize(data: Seq<u8>) -> Result<(Seq<i64>, int), SerializationError> {
        Vec::<i64>::spec_deserialize(data)
    }

    fn deserialize(reader: &mut Cursor) -> (r: Result<BitSet, SerializationError>) {
        match Vec::<i64>::deserialize(reader) {
            Ok(data) => {
                assert(data.deep_view() =~= data@);
                Ok(BitSet { data })
            },
            Err(e) => Err(e),
        }
    }
}

impl RoundTrip for BitSet {
    proof fn lemma_round_trip(&self, rest: Seq<u8>) {
        self.data.lemma_round_trip(rest);
        assert(self.data.deep_view() =~= self.data@);
    }
}

/// Whether bit `i` is set in a byte array: bit `i % 8` of byte `i / 8`.
pub open spec fn fixed_get(data: Seq<u8>, i: int) -> bool {
    let byte = i / 8;
    let bit = (i % 8) as usize;
    byte < data.len() && (data[byte] >> bit) & 1u8 == 1u8
}

/// The byte array with bit `i` set, if it lies in the array.
pub open spec fn fixed_set(data: Seq<u8>, i: int) -> Seq<u8> {
    let byte = i / 8;
    let bit = (i % 8) as usize;
    if byte < data.len() {
        data.update(byte, data[byte] | (1u8 << bit))
    } else {
        data
    }
}

/// The byte array with bit `i` cleared, if it lies in the array.
pub open spec fn fixed_clear(data: Seq<u8>, i: int) -> Seq<u8> {
    let byte = i / 8;
    let bit = (i % 8) as usize;
    if byte < data.len() {
        data.update(byte, data[byte] & !(1u8 << bit))
    } else {
        data
    }
}

/// A fixed-length bit array of `n_bits` bits, encoded as `ceil(n_bits / 8)` bytes.
#[derive(Debug, Clone, PartialEq, Eq)]
pub struct FixedBitSet {
    /// Total number of bits.
    pub n_bits: usize,
    /// Raw byte storage; length is `ceil(n_bits / 8)`.
    pub data: Vec<u8>,
}

impl FixedBitSet {
    /// Create a zero-filled `FixedBitSet` with `n_bits` bits.
    pub fn new(n_bits: usize) -> (f: Self)
        requires
            n_bits + 7 <= usize::MAX,
        ensures
            f.n_bits == n_bits,
            f.data@ == Seq::new(((n_bits + 7) / 8) as nat, |k: int| 0u8),
    {
        let n_bytes = (n_bits + 7) / 8;
        let data = vec![0u8; n_bytes];
        assert(data@ =~= Seq::new(((n_bits + 7) / 8) as nat, |k: int| 0u8));
        FixedBitSet { n_bits, data }
    }

    /// Test whether bit `i` is set.
    pub fn get(&self, i: usize) -> (r: bool)
        ensures
            r == fixed_get(self.data@, i as int),
    {
        let byte = i / 8;
        let bit = i % 8;
        if byte >= self.data.len() {
            return false;
        }
        (self.data[byte] >> bit) & 1 == 1
    }

    /// Set bit `i`; a bit beyond the array is ignored.
    pub fn set(&mut self, i: usize)
        ensures
            final(self).n_bits == old(self).n_bits,
            final(self).data@ == fixed_set(old(self).data@, i as int),
    {
        let byte = i / 8;
        let bit = i % 8;
        if byte < self.data.len() {
            let updated = self.data[byte] | (1u8 << bit);
            self.data.set(byte, updated);
        }
    }

    /// Clear bit `i`; a bit beyond the array is ignored.
    pub fn clear(&mut self, i: usize)
        ensures
            final(self).n_bits == old(self).n_bits,
            final(self).data@ == fixed_clear(old(self).data@, i as int),
    {
        let byte = i / 8;
        let bit = i % 8;
        if byte < self.data.len() {
            let updated = self.data[byte] & !(1u8 << bit);
            self.data.set(byte, updated);
        }
    }

    /// Append the bytes of this bitset; its size is known from context.
    pub fn serialize_fixed(&self, buf: &mut Vec<u8>) -> (r: Result<(), SerializationError>)
        ensures
            r is Ok,
            final(buf)@ == old(buf)@ + self.data@,
    {
        append_bytes(buf, self.data.as_slice());
        Ok(())
    }

    /// Read a `FixedBitSet` of `n_bits` bits: `ceil(n_bits / 8)` bytes. On
    /// success the reader is advanced past them; on error it is left as it was.
    pub fn deserialize_fixed(reader: &mut Cursor, n_bits: usize) -> (r: Result<Self, SerializationError>)
        requires
            n_bits + 7 <= usize::MAX,
        ensures
            ({
                let n = (n_bits + 7) / 8;
                &&& n <= old(reader).remaining().len() ==> (r matches Ok(f) && f.n_bits == n_bits && f.data@
                    == old(reader).remaining().take(n) && advanced(*old(reader), *final(reader), n))
                &&& n > old(reader).remaining().len() ==> r == Err::<Self, SerializationError>(
                    SerializationError::UnexpectedEof) && *final(reader) == *old(reader)
            }),
    {
        let n_bytes = (n_bits + 7) / 8;
        match reader.read_bytes(n_bytes) {
            Ok(data) => Ok(FixedBitSet { n_bits, data }),
            Err(e) => Err(e),
        }
    }
}

/// Reading back `ceil(n_bits / 8)` bytes where a well-sized bitset was
/// written gives its bytes, whatever follows.
pub proof fn lemma_fixed_bitset_round_trip(f: FixedBitSet, rest: Seq<u8>)
    requires
        f.data@.len() == (f.n_bits + 7) / 8,
    ensures
        (f.data@ + rest).take((f.n_bits + 7) / 8) == f.data@,
{
    assert((f.data@ + rest).take((f.n_bits + 7) / 8) =~= f.data@);
}

/// Setting a bit inside the array sets it and leaves every other bit as it was.
pub proof fn lemma_fixed_set_get(data: Seq<u8>, i: int, j: int)
    requires
        0 <= i < 8 * data.len(),
        0 <= j,
    ensures
        fixed_get(fixed_set(data, i), j) == (j == i || fixed_get(data, j)),
{
    let wi = i / 8;
    let wj = j / 8;
    let bi = (i % 8) as usize;
    let bj = (j % 8) as usize;
    if wj == wi {
        let x = data[wi];
        assert(bi < 8 && bj < 8 ==> ((((x | (1u8 << bi)) >> bj) & 1u8 == 1u8) == (bi == bj || (x >> bj) & 1u8 == 1u8))) by (bit_vector);
    }
}

/// Testing a bit by shifting it down is testing it against its mask.
proof fn lemma_byte_bit(x: u8, b: usize) by (bit_vector)
    requires
        b < 8,
    ensures
        ((x >> b) & 1u8 == 1u8) == (x & (1u8 << (b as u8)) != 0),
{
}

/// Bit `i` of a byte array is bit `i % 8`, counted from the least
/// significant, of byte `i / 8`; bits past the end read as clear.
pub proof fn lemma_fixed_get_bit(data: Seq<u8>, i: int)
    requires
        0 <= i,
    ensures
        fixed_get(data, i) == (i / 8 < data.len() && data[i / 8] & (1u8 << ((i % 8) as u8)) != 0),
{
    lemma_byte_bit(data[i / 8], (i % 8) as usize);
}

/// Setting bit `i` keeps the array's length; inside the array it sets bit
/// `i % 8` of byte `i / 8`, and every other bit stays as it was.
pub proof fn lemma_fixed_set_bits(data: Seq<u8>, i: int, j: int)
    requires
        0 <= i,
        0 <= j < 8 * data.len(),
    ensures
        fixed_set(data, i).len() == data.len(),
        (fixed_set(data, i)[j / 8] & (1u8 << ((j % 8) as u8)) != 0) == (j == i || data[j / 8] & (1u8 << ((j % 8) as u8)) != 0),
{
    if i < 8 * data.len() {
        lemma_fixed_set_get(data, i, j);
    }
    lemma_fixed_get_bit(fixed_set(data, i), j);
    lemma_fixed_get_bit(data, j);
}

/// Clearing bit `i` keeps the array's length; inside the array it clears bit
/// `i % 8` of byte `i / 8`, and every other bit stays as it was.
pub proof fn lemma_fixed_clear_bits(data: Seq<u8>, i: int, j: int)
    requires
        0 <= i,
        0 <= j < 8 * data.len(),
    ensures
        fixed_clear(data, i).len() == data.len(),
        (fixed_clear(data, i)[j / 8] & (1u8 << ((j % 8) as u8)) != 0) == (j != i && data[j / 8] & (1u8 << ((j % 8) as u8)) != 0),
{
    lemma_fixed_clear_get(data, i, j);
    lemma_fixed_get_bit(fixed_clear(data, i), j);
    lemma_fixed_get_bit(data, j);
}

/// Clearing a bit clears it and leaves every other bit as it was.
pub proof fn lemma_fixed_clear_get(data: Seq<u8>, i: int, j: int)
    requires
        0 <= i,
        0 <= j,
    ensures
        fixed_get(fixed_clear(data, i), j) == (j != i && fixed_get(data, j)),
{
    let wi = i / 8;
    let wj = j / 8;
    let bi = (i % 8) as usize;
    let bj = (j % 8) as usize;
    if wj == wi && wi < data.len() {
        let x = data[wi];
        assert(bi < 8 && bj < 8 ==> ((((x & !(1u8 << bi)) >> bj) & 1u8 == 1u8) == (bi != bj && (x >> bj) & 1u8 == 1u8))) by (bit_vector);
    }
}

/// Raw NBT data as an opaque byte blob.
#[derive(Debug, Clone, PartialEq, Eq, Default)]
pub struct Nbt(pub Vec<u8>);

impl Nbt {
    /// Create an `Nbt` value from raw bytes.
    pub fn from_bytes(bytes: Vec<u8>) -> (n: Self)
        ensures
            n.0@ == bytes@,
    {
        Nbt(bytes)
    }

    /// The raw bytes of this NBT value.
    pub fn as_bytes(&self) -> (b: &[u8])
        ensures
            b@ == self.0@,
    {
        self.0.as_slice()
    }
}

/// A legacy fixed-point value with 5 fraction bits, stored as an `i32` and
/// encoded as one.
#[derive(Debug, Clone, Copy, PartialEq, Eq, Default)]
pub struct FixedPoint5(pub i32);

impl DeepView for FixedPoint5 {
    type V = FixedPoint5;

    open spec fn deep_view(&self) -> FixedPoint5 {
        *self
    }
}

impl Serialize for FixedPoint5 {
    open spec fn spec_serialize(&self) -> Result<Seq<u8>, SerializationError> {
        Ok(be32(self.0 as u32))
    }

    fn serialize(&self, buf: &mut Vec<u8>) -> (r: Result<(), SerializationError>) {
        write_be32(self.0 as u32, buf);
        Ok(())
    }
}

impl Deserialize for FixedPoint5 {
    open spec fn spec_deserialize(data: Seq<u8>) -> Result<(FixedPoint5, int), SerializationError> {
        fixed_width(data, 4, FixedPoint5(from_be32(data) as i32))
    }

    fn deserialize(reader: &mut Cursor) -> (r: Result<FixedPoint5, SerializationError>) {
        match read_be32(reader) {
            Ok(v) => Ok(FixedPoint5(v as i32)),
            Err(e) => Err(e),
        }
    }
}

impl RoundTrip for FixedPoint5 {
    proof fn lemma_round_trip(&self, rest: Seq<u8>) {
        let x = self.0;
        lemma_be32_roundtrip(x as u32, rest);
        lemma_i32_bits(x);
    }
}

/// Bit field telling, per axis, whether a teleport is relative (bit set) or
/// absolute. Encoded as an `i32`.
#[derive(Debug, Clone, Copy, PartialEq, Eq, Default)]
pub struct TeleportFlags(pub i32);

impl TeleportFlags {
    /// Relative X position.
    pub const RELATIVE_X: i32 = 0x0001;
    /// Relative Y position.
    pub const RELATIVE_Y: i32 = 0x0002;
    /// Relative Z position.
    pub const RELATIVE_Z: i32 = 0x0004;
    /// Relative yaw rotation.
    pub const RELATIVE_YAW: i32 = 0x0008;
    /// Relative pitch rotation.
    pub const RELATIVE_PITCH: i32 = 0x0010;
    /// Relative X velocity.
    pub const RELATIVE_VELOCITY_X: i32 = 0x0020;
    /// Relative Y velocity.
    pub const RELATIVE_VELOCITY_Y: i32 = 0x0040;
    /// Relative Z velocity.
    pub const RELATIVE_VELOCITY_Z: i32 = 0x0080;
    /// Rotate velocity according to rotation change before applying.
    pub const ROTATE_VELOCITY: i32 = 0x0100;

    /// Flags with the position and rotation axes (x, y, z, yaw, pitch) relative.
    pub fn all_relative() -> (f: Self)
        ensures
            f.0 == 0x001F,
    {
        let bits = Self::RELATIVE_X | Self::RELATIVE_Y | Self::RELATIVE_Z | Self::RELATIVE_YAW | Self::RELATIVE_PITCH;
        assert(0x0001i32 | 0x0002i32 | 0x0004i32 | 0x0008i32 | 0x0010i32 == 0x001Fi32) by (bit_vector);
        TeleportFlags(bits)
    }

    /// Whether any bit of `flag` is set.
    pub fn is_set(&self, flag: i32) -> (r: bool)
        ensures
            r == (self.0 & flag != 0),
    {
        self.0 & flag != 0
    }
}

impl DeepView for TeleportFlags {
    type V = TeleportFlags;

    open spec fn deep_view(&self) -> TeleportFlags {
        *self
    }
}

impl Serialize for TeleportFlags {
    open spec fn spec_serialize(&self) -> Result<Seq<u8>, SerializationError> {
        Ok(be32(self.0 as u32))
    }

    fn serialize(&self, buf: &mut Vec<u8>) -> (r: Result<(), SerializationError>) {
        write_be32(self.0 as u32, buf);
        Ok(())
    }
}

impl Deserialize for TeleportFlags {
    open spec fn spec_deserialize(data: Seq<u8>) -> Result<(TeleportFlags, int), SerializationError> {
        fixed_width(data, 4, TeleportFlags(from_be32(data) as i32))
    }

    fn deserialize(reader: &mut Cursor) -> (r: Result<TeleportFlags, SerializationError>) {
        match read_be32(reader) {
            Ok(v) => Ok(TeleportFlags(v as i32)),
            Err(e) => Err(e),
        }
    }
}

impl RoundTrip for TeleportFlags {
    proof fn lemma_round_trip(&self, rest: Seq<u8>) {
        let x = self.0;
        lemma_be32_roundtrip(x as u32, rest);
        lemma_i32_bits(x);
    }
}


/// The index of the first `:` in `s`, if any.
pub open spec fn first_colon(s: Seq<char>) -> Option<int>
    decreases s.len(),
{
    if s.len() == 0 {
        None
    } else if s[0] == ':' {
        Some(0)
    } else {
        match first_colon(s.drop_first()) {
            Some(i) => Some(i + 1),
            None => None,
        }
    }
}

/// The text of the identifier made from `s`: `s` itself if it names a
/// namespace (holds a `:`), else `s` in the `minecraft` namespace.
pub open spec fn spec_identifier(s: Seq<char>) -> Seq<char> {
    if first_colon(s) is Some {
        s
    } else {
        "minecraft:"@ + s
    }
}

/// The namespace of an identifier's text: what precedes the first `:`, or
/// `minecraft` when there is none.
pub open spec fn spec_namespace(t: Seq<char>) -> Seq<char> {
    match first_colon(t) {
        Some(i) => t.subrange(0, i),
        None => "minecraft"@,
    }
}

/// The value (path) of an identifier's text: what follows the first `:`, or
/// the whole text when there is none.
pub open spec fn spec_value(t: Seq<char>) -> Seq<char> {
    match first_colon(t) {
        Some(i) => t.subrange(i + 1, t.len() as int),
        None => t,
    }
}

proof fn lemma_first_colon_skip(s: Seq<char>, k: int)
    requires
        0 <= k <= s.len(),
        forall|j: int| 0 <= j < k ==> s[j] != ':',
    ensures
        first_colon(s) == match first_colon(s.skip(k)) {
            Some(i) => Some(i + k),
            None => None::<int>,
        },
    decreases k,
{
    if k == 0 {
        assert(s.skip(0) =~= s);
    } else {
        assert(s[0] != ':');
        lemma_first_colon_skip(s.drop_first(), k - 1);
        assert(s.drop_first().skip(k - 1) =~= s.skip(k));
    }
}

/// The index of the first `:` of `s`, counted in characters.
fn find_colon(s: &str) -> (r: Option<usize>)
    ensures
        r matches Some(i) ==> first_colon(s@) == Some(i as int) && i < s@.len(),
        r is None ==> first_colon(s@) is None,
{
    let ghost chars = s@;
    let total = s.unicode_len();
    let mut k: usize = 0;
    for c in it: s.chars()
        invariant
            it.seq() == chars,
            chars == s@,
            chars.len() == total,
            k == it.index(),
            forall|j: int| 0 <= j < k ==> chars[j] != ':',
    {
        if c == ':' {
            proof {
                lemma_first_colon_skip(chars, k as int);
                assert(chars.skip(k as int)[0] == ':');
            }
            return Some(k);
        }
        k = k + 1;
    }
    proof {
        lemma_first_colon_skip(chars, chars.len() as int);
        assert(chars.skip(chars.len() as int).len() == 0);
    }
    None
}

/// A namespaced resource identifier such as `minecraft:stone`; both parts use
/// `[a-z0-9._-]`, the value may also hold `/`.
#[derive(Debug, Clone, PartialEq, Eq, Hash)]
pub struct Identifier(pub String);

impl Identifier {
    /// Create an identifier, in the `minecraft` namespace if `s` names none.
    pub fn new(s: &str) -> (id: Self)
        ensures
            id.0@ == spec_identifier(s@),
    {
        if find_colon(s).is_some() {
            Identifier(s.to_owned())
        } else {
            let mut t = "minecraft:".to_owned();
            t.append(s);
            Identifier(t)
        }
    }

    /// The namespace portion of the identifier.
    pub fn namespace(&self) -> (r: &str)
        ensures
            r@ == spec_namespace(self.0@),
    {
        let text = self.0.as_str();
        match find_colon(text) {
            Some(i) => text.substring_char(0, i),
            None => "minecraft",
        }
    }

    /// The value (path) portion of the identifier.
    pub fn value(&self) -> (r: &str)
        ensures
            r@ == spec_value(self.0@),
    {
        let text = self.0.as_str();
        match find_colon(text) {
            Some(i) => {
                let n = text.unicode_len();
                text.substring_char(i + 1, n)
            },
            None => text,
        }
    }
}

/// An identifier made from text without a namespace is in the `minecraft`
/// namespace and keeps the text as its value.
pub proof fn lemma_identifier_default_namespace(s: Seq<char>)
    requires
        first_colon(s) is None,
    ensures
        spec_namespace(spec_identifier(s)) == "minecraft"@,
        spec_value(spec_identifier(s)) == s,
{
    reveal_strlit("minecraft:");
    reveal_strlit("minecraft");
    let t = spec_identifier(s);
    assert(forall|j: int| 0 <= j < 9 ==> t[j] != ':');
    lemma_first_colon_skip(t, 9);
    assert(t.skip(9)[0] == ':');
    assert(t.subrange(0, 9) =~= "minecraft"@);
    assert(t.subrange(10, t.len() as int) =~= s);
}

/// An identifier made from text that names a namespace keeps the text, and
/// the text is its namespace, a `:` and its value.
pub proof fn lemma_identifier_split(s: Seq<char>)
    requires
        first_colon(s) is Some,
    ensures
        spec_identifier(s) == s,
        spec_namespace(s) + seq![':'] + spec_value(s) == s,
{
    lemma_first_colon_bounds(s);
    let i = first_colon(s)->Some_0;
    assert(s.subrange(0, i) + seq![':'] + s.subrange(i + 1, s.len() as int) =~= s);
}

proof fn lemma_first_colon_bounds(s: Seq<char>)
    ensures
        first_colon(s) matches Some(i) ==> 0 <= i < s.len() && s[i] == ':',
    decreases s.len(),
{
    if s.len() > 0 && s[0] != ':' {
        lemma_first_colon_bounds(s.drop_first());
    }
}

impl DeepView for Identifier {
    type V = Seq<char>;

    open spec fn deep_view(&self) -> Seq<char> {
        self.0@
    }
}

impl Serialize for Identifier {
    /// Encoded as a string of at most 32767 UTF-16 code units.
    open spec fn spec_serialize(&self) -> Result<Seq<u8>, SerializationError> {
        spec_string_with_max(self.0@, MAX_STRING_LEN)
    }

    fn serialize(&self, buf: &mut Vec<u8>) -> (r: Result<(), SerializationError>) {
        serialize_string_with_max(self.0.as_str(), buf, MAX_STRING_LEN)
    }
}

impl Deserialize for Identifier {
    open spec fn spec_deserialize(data: Seq<u8>) -> Result<(Seq<char>, int), SerializationError> {
        spec_parse_string_with_max(data, MAX_STRING_LEN)
    }

    fn deserialize(reader: &mut Cursor) -> (r: Result<Identifier, SerializationError>) {
        match deserialize_string_with_max(reader, MAX_STRING_LEN) {
            Ok(s) => Ok(Identifier(s)),
            Err(e) => Err(e),
        }
    }
}

impl RoundTrip for Identifier {
    proof fn lemma_round_trip(&self, rest: Seq<u8>) {
        lemma_string_round_trip(self.0@, MAX_STRING_LEN, rest);
    }
}

} // verus!
