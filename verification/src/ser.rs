//! The serialization framework: a byte cursor to read from, the error type,
//! the `Serialize` / `Deserialize` / `RoundTrip` traits, and the encodings of
//! strings, optional values, length-prefixed arrays and raw bytes.

use vstd::prelude::*;
use vstd::utf8::*;
use crate::varint::{VarInt, VarIntError, spec_read_varint, spec_varint, lemma_varint_encode_decode};

verus! {

/// Errors while encoding or decoding a protocol value.
#[derive(Debug, Clone, Copy, PartialEq, Eq)]
pub enum SerializationError {
    /// The input ended before the value was complete.
    UnexpectedEof,
    /// A length prefix or other `VarInt` could not be decoded.
    VarInt(VarIntError),
    /// A length prefix was negative or otherwise out of range.
    InvalidLength(i64),
    /// A string is longer than the allowed number of UTF-16 code units.
    StringTooLong(usize),
    /// String bytes were not valid UTF-8.
    InvalidUtf8,
}

/// A read position over a byte slice, from which values are decoded.
#[derive(Clone, Copy)]
pub struct Cursor<'a> {
    data: &'a [u8],
    pos: usize,
}

impl<'a> Cursor<'a> {
    #[verifier::type_invariant]
    spec fn inv(self) -> bool {
        self.pos <= self.data@.len()
    }

    /// All bytes of the cursor, read or not.
    pub closed spec fn spec_bytes(&self) -> Seq<u8> {
        self.data@
    }

    /// How many bytes have been read.
    pub closed spec fn spec_position(&self) -> int {
        self.pos as int
    }

    /// The bytes not read yet.
    pub closed spec fn remaining(&self) -> Seq<u8> {
        self.data@.subrange(self.pos as int, self.data@.len() as int)
    }

    /// A cursor at the start of `data`.
    pub fn new(data: &'a [u8]) -> (c: Self)
        ensures
            c.spec_bytes() == data@,
            c.spec_position() == 0,
            c.remaining() == data@,
    {
        let c = Cursor { data, pos: 0 };
        assert(c.remaining() =~= data@);
        c
    }

    /// How many bytes have been read.
    pub fn position(&self) -> (p: u64)
        ensures
            p == self.spec_position(),
    {
        proof {
            use_type_invariant(self);
        }
        self.pos as u64
    }

    /// How many bytes are left.
    pub fn remaining_len(&self) -> (n: usize)
        ensures
            n == self.remaining().len(),
    {
        proof {
            use_type_invariant(self);
        }
        self.data.len() - self.pos
    }

    /// The byte `i` places after the read position, without consuming anything.
    pub fn peek_at(&self, i: usize) -> (b: u8)
        requires
            i < self.remaining().len(),
        ensures
            b == self.remaining()[i as int],
    {
        proof {
            use_type_invariant(self);
            assert(self.remaining().len() == self.data@.len() - self.pos);
        }
        let _len = self.data.len();
        self.data[self.pos + i]
    }

    /// Consume `n` bytes.
    pub fn advance(&mut self, n: usize)
        requires
            n <= old(self).remaining().len(),
        ensures
            advanced(*old(self), *final(self), n as int),
    {
        proof {
            use_type_invariant(&*self);
            assert(self.remaining().len() == self.data@.len() - self.pos);
        }
        let _len = self.data.len();
        self.pos = self.pos + n;
        proof {
            assert(self.remaining() =~= old(self).remaining().skip(n as int));
        }
    }

    /// Read one byte.
    pub fn read_u8(&mut self) -> (r: Result<u8, SerializationError>)
        ensures
            old(self).remaining().len() > 0 ==> r == Ok::<u8, SerializationError>(old(self).remaining()[0])
                && advanced(*old(self), *final(self), 1),
            old(self).remaining().len() == 0 ==> r == Err::<u8, SerializationError>(SerializationError::UnexpectedEof)
                && *final(self) == *old(self),
    {
        if self.remaining_len() == 0 {
            return Err(SerializationError::UnexpectedEof);
        }
        let b = self.peek_at(0);
        self.advance(1);
        Ok(b)
    }

    /// Read exactly `n` bytes.
    pub fn read_bytes(&mut self, n: usize) -> (r: Result<Vec<u8>, SerializationError>)
        ensures
            n <= old(self).remaining().len() ==> (r matches Ok(v) && v@ == old(self).remaining().take(n as int)
                && advanced(*old(self), *final(self), n as int)),
            n > old(self).remaining().len() ==> r == Err::<Vec<u8>, SerializationError>(SerializationError::UnexpectedEof)
                && *final(self) == *old(self),
    {
        if n > self.remaining_len() {
            return Err(SerializationError::UnexpectedEof);
        }
        let mut v: Vec<u8> = Vec::with_capacity(n);
        let mut i: usize = 0;
        while i < n
            invariant
                i <= n,
                n <= self.remaining().len(),
                v@ == self.remaining().take(i as int),
            decreases n - i,
        {
            let b = self.peek_at(i);
            v.push(b);
            i = i + 1;
            assert(v@ =~= self.remaining().take(i as int));
        }
        self.advance(n);
        Ok(v)
    }
}

/// Append `bytes` to `buf`.
pub fn append_bytes(buf: &mut Vec<u8>, bytes: &[u8])
    ensures
        final(buf)@ == old(buf)@ + bytes@,
{
    let ghost start = buf@;
    let mut i: usize = 0;
    while i < bytes.len()
        invariant
            i <= bytes@.len(),
            buf@ == start + bytes@.take(i as int),
        decreases bytes@.len() - i,
    {
        buf.push(bytes[i]);
        i = i + 1;
        assert(buf@ =~= start + bytes@.take(i as int));
    }
    assert(bytes@.take(i as int) =~= bytes@);
}

/// `after` is `before` with `n` more bytes read.
pub open spec fn advanced<'a>(before: Cursor<'a>, after: Cursor<'a>, n: int) -> bool {
    &&& 0 <= n <= before.remaining().len()
    &&& after.spec_bytes() == before.spec_bytes()
    &&& after.spec_position() == before.spec_position() + n
    &&& after.remaining() == before.remaining().skip(n)
}


/// A value with a protocol encoding.
pub trait Serialize {
    /// The bytes this value encodes to, or the error that encoding reports.
    /// Every impl in this crate defines it; the default is for impls that do
    /// not define the encoding, and states nothing usable.
    open spec fn spec_serialize(&self) -> Result<Seq<u8>, SerializationError> {
        arbitrary()
    }

    /// Append the encoding of this value to `buf`; on error `buf` is left as it was.
    fn serialize(&self, buf: &mut Vec<u8>) -> (r: Result<(), SerializationError>)
        ensures
            match self.spec_serialize() {
                Ok(bytes) => r is Ok && final(buf)@ == old(buf)@ + bytes,
                Err(e) => r == Err::<(), SerializationError>(e) && final(buf)@ == old(buf)@,
            },
    ;
}

/// A value that can be decoded from its protocol encoding.
pub trait Deserialize: Sized + DeepView {
    /// What decoding the front of `data` gives: the value (by its deep view)
    /// and how many bytes it takes, or the error. Every impl in this crate
    /// defines it; the default is for impls that do not define the encoding.
    open spec fn spec_deserialize(data: Seq<u8>) -> Result<(Self::V, int), SerializationError> {
        arbitrary()
    }

    /// Decode a value at the reader's position. On success the reader is
    /// advanced past it; on error it is left as it was.
    fn deserialize(reader: &mut Cursor) -> (r: Result<Self, SerializationError>)
        ensures
            match Self::spec_deserialize(old(reader).remaining()) {
                Ok((v, n)) => (r matches Ok(x) && x.deep_view() == v) && advanced(*old(reader), *final(reader), n),
                Err(e) => (r matches Err(e2) && e2 == e) && *final(reader) == *old(reader),
            },
    ;
}


/// UTF-16 code units of one character: two for characters outside the Basic
/// Multilingual Plane, one otherwise.
pub open spec fn utf16_units(c: char) -> nat {
    if (c as u32) > 0xFFFF {
        2
    } else {
        1
    }
}

/// The length of a character sequence in UTF-16 code units.
pub open spec fn utf16_len(s: Seq<char>) -> nat
    decreases s.len(),
{
    if s.len() == 0 {
        0
    } else {
        utf16_len(s.drop_last()) + utf16_units(s.last())
    }
}

/// The protocol encoding of a string allowed at most `max` UTF-16 code units:
/// its UTF-8 byte count as a `VarInt`, then the bytes.
pub open spec fn spec_string_with_max(s: Seq<char>, max: usize) -> Result<Seq<u8>, SerializationError> {
    if utf16_len(s) > max || encode_utf8(s).len() > i32::MAX {
        Err(SerializationError::StringTooLong(max))
    } else {
        Ok(spec_varint(encode_utf8(s).len() as i32) + encode_utf8(s))
    }
}

/// Decoding a string allowed at most `max` UTF-16 code units from the front of `data`.
pub open spec fn spec_parse_string_with_max(data: Seq<u8>, max: usize) -> Result<(Seq<char>, int), SerializationError> {
    match spec_read_varint(data) {
        Err(e) => Err(SerializationError::VarInt(e)),
        Ok((len, n)) => if len < 0 {
            Err(SerializationError::InvalidLength(len as i64))
        } else if len > 3 * max {
            Err(SerializationError::StringTooLong(max))
        } else if data.len() < n + len {
            Err(SerializationError::UnexpectedEof)
        } else {
            let bytes = data.subrange(n, n + len);
            if !valid_utf8(bytes) {
                Err(SerializationError::InvalidUtf8)
            } else if utf16_len(decode_utf8(bytes)) > max {
                Err(SerializationError::StringTooLong(max))
            } else {
                Ok((decode_utf8(bytes), n + len))
            }
        },
    }
}

proof fn lemma_utf16_len_front(s: Seq<char>)
    requires
        s.len() > 0,
    ensures
        utf16_len(s) == utf16_units(s[0]) + utf16_len(s.drop_first()),
    decreases s.len(),
{
    if s.len() == 1 {
        assert(s.drop_last().len() == 0);
        assert(s.drop_first().len() == 0);
        assert(utf16_len(s.drop_first()) == 0);
        assert(utf16_len(s.drop_last()) == 0);
    } else {
        lemma_utf16_len_front(s.drop_last());
        assert(s.drop_last().drop_first() =~= s.drop_first().drop_last());
        assert(s.drop_first().last() == s.last());
        assert(s.drop_last()[0] == s[0]);
    }
}

/// A string's UTF-8 bytes number at most three per UTF-16 code unit.
proof fn lemma_utf8_len_bound(s: Seq<char>)
    ensures
        encode_utf8(s).len() <= 3 * utf16_len(s),
    decreases s.len(),
{
    if s.len() > 0 {
        lemma_utf16_len_front(s);
        lemma_utf8_len_bound(s.drop_first());
        char_is_scalar(s[0]);
    }
}

/// How many UTF-16 code units `s` takes, if no more than `max`.
fn utf16_len_within(s: &str, max: usize) -> (r: Option<usize>)
    ensures
        r matches Some(n) ==> n == utf16_len(s@) && n <= max,
        r is None ==> utf16_len(s@) > max,
{
    let mut count: usize = 0;
    let ghost chars = s@;
    for c in it: s.chars()
        invariant
            it.seq() == chars,
            chars == s@,
            count == utf16_len(chars.take(it.index() as int)),
            count <= max,
    {
        let ghost i = it.index() as int;
        assert(chars.take(i + 1).drop_last() =~= chars.take(i));
        assert(chars.take(i + 1).last() == c);
        let units: usize = if (c as u32) > 0xFFFF { 2 } else { 1 };
        if units > max - count {
            proof {
                lemma_utf16_len_prefix(chars, i + 1);
                assert(units == utf16_units(c));
                assert(utf16_len(chars.take(i + 1)) == count + units);
            }
            return None;
        }
        count = count + units;
    }
    assert(chars.take(chars.len() as int) =~= chars);
    Some(count)
}

proof fn lemma_utf16_len_prefix(s: Seq<char>, i: int)
    requires
        0 <= i <= s.len(),
    ensures
        utf16_len(s.take(i)) <= utf16_len(s),
    decreases s.len() - i,
{
    if i < s.len() {
        lemma_utf16_len_prefix(s, i + 1);
        assert(s.take(i + 1).drop_last() =~= s.take(i));
    } else {
        assert(s.take(i) =~= s);
    }
}

/// Append a string allowed at most `max` UTF-16 code units; on error `buf` is
/// left as it was.
pub fn serialize_string_with_max(s: &str, buf: &mut Vec<u8>, max: usize) -> (r: Result<(), SerializationError>)
    ensures
        match spec_string_with_max(s@, max) {
            Ok(bytes) => r is Ok && final(buf)@ == old(buf)@ + bytes,
            Err(e) => r == Err::<(), SerializationError>(e) && final(buf)@ == old(buf)@,
        },
{
    if utf16_len_within(s, max).is_none() {
        return Err(SerializationError::StringTooLong(max));
    }
    let bytes = s.as_bytes();
    let n = bytes.len();
    if n > 0x7fff_ffff {
        return Err(SerializationError::StringTooLong(max));
    }
    VarInt(n as i32).write_sync(buf);
    append_bytes(buf, bytes);
    Ok(())
}

/// `String::from_utf8`, which std documents to succeed exactly when the bytes
/// are valid UTF-8, giving the string they encode.
#[verifier::external_body]
fn string_from_utf8(bytes: Vec<u8>) -> (r: Option<String>)
    ensures
        r is Some <==> valid_utf8(bytes@),
        r matches Some(s) ==> s@ == decode_utf8(bytes@),
{
    String::from_utf8(bytes).ok()
}

/// Decode a string allowed at most `max` UTF-16 code units. On success the
/// reader is advanced past it; on error it is left as it was.
pub fn deserialize_string_with_max(reader: &mut Cursor, max: usize) -> (r: Result<String, SerializationError>)
    ensures
        match spec_parse_string_with_max(old(reader).remaining(), max) {
            Ok((v, n)) => (r matches Ok(x) && x@ == v) && advanced(*old(reader), *final(reader), n),
            Err(e) => (r matches Err(e2) && e2 == e) && *final(reader) == *old(reader),
        },
{
    let saved = *reader;
    let len = match VarInt::read_sync(reader) {
        Ok(v) => v.0,
        Err(e) => return Err(SerializationError::VarInt(e)),
    };
    if len < 0 {
        *reader = saved;
        return Err(SerializationError::InvalidLength(len as i64));
    }
    if (len as u128) > 3 * (max as u128) {
        *reader = saved;
        return Err(SerializationError::StringTooLong(max));
    }
    let ghost data = old(reader).remaining();
    let ghost n1 = spec_read_varint(data)->Ok_0.1;
    assert(reader.remaining() == data.skip(n1));
    let bytes = match reader.read_bytes(len as usize) {
        Ok(b) => b,
        Err(e) => {
            *reader = saved;
            return Err(e);
        },
    };
    assert(bytes@ =~= data.subrange(n1, n1 + len));
    assert(reader.remaining() =~= data.skip(n1 + len));
    let s = match string_from_utf8(bytes) {
        Some(s) => s,
        None => {
            *reader = saved;
            return Err(SerializationError::InvalidUtf8);
        },
    };
    if utf16_len_within(s.as_str(), max).is_none() {
        *reader = saved;
        return Err(SerializationError::StringTooLong(max));
    }
    Ok(s)
}


/// The longest string, in UTF-16 code units, that a protocol `String` may hold.
pub const MAX_STRING_LEN: usize = 32767;

impl Serialize for String {
    open spec fn spec_serialize(&self) -> Result<Seq<u8>, SerializationError> {
        spec_string_with_max(self@, MAX_STRING_LEN)
    }

    fn serialize(&self, buf: &mut Vec<u8>) -> (r: Result<(), SerializationError>) {
        serialize_string_with_max(self.as_str(), buf, MAX_STRING_LEN)
    }
}

impl Deserialize for String {
    open spec fn spec_deserialize(data: Seq<u8>) -> Result<(Seq<char>, int), SerializationError> {
        spec_parse_string_with_max(data, MAX_STRING_LEN)
    }

    fn deserialize(reader: &mut Cursor) -> (r: Result<String, SerializationError>) {
        deserialize_string_with_max(reader, MAX_STRING_LEN)
    }
}

impl<T: Serialize> Serialize for Option<T> {
    /// A presence flag (1 or 0), then the value if present.
    open spec fn spec_serialize(&self) -> Result<Seq<u8>, SerializationError> {
        match self {
            None => Ok(seq![0u8]),
            Some(v) => match v.spec_serialize() {
                Ok(b) => Ok(seq![1u8] + b),
                Err(e) => Err(e),
            },
        }
    }

    fn serialize(&self, buf: &mut Vec<u8>) -> (r: Result<(), SerializationError>) {
        match self {
            None => {
                buf.push(0u8);
                assert(final(buf)@ =~= old(buf)@ + seq![0u8]);
                Ok(())
            },
            Some(v) => {
                let start = buf.len();
                buf.push(1u8);
                match v.serialize(buf) {
                    Ok(()) => {
                        assert(buf@ =~= old(buf)@ + (seq![1u8] + v.spec_serialize()->Ok_0));
                        Ok(())
                    },
                    Err(e) => {
                        buf.truncate(start);
                        assert(buf@ =~= old(buf)@);
                        Err(e)
                    },
                }
            },
        }
    }
}

impl<T: Deserialize> Deserialize for Option<T> {
    /// A non-zero presence flag is followed by the value.
    open spec fn spec_deserialize(data: Seq<u8>) -> Result<(Option<T::V>, int), SerializationError> {
        if data.len() == 0 {
            Err(SerializationError::UnexpectedEof)
        } else if data[0] == 0 {
            Ok((None, 1))
        } else {
            match T::spec_deserialize(data.drop_first()) {
                Ok((v, n)) => Ok((Some(v), n + 1)),
                Err(e) => Err(e),
            }
        }
    }

    fn deserialize(reader: &mut Cursor) -> (r: Result<Option<T>, SerializationError>) {
        let saved = *reader;
        let present = match reader.read_u8() {
            Ok(b) => b,
            Err(e) => return Err(e),
        };
        if present == 0 {
            return Ok(None);
        }
        let ghost data = old(reader).remaining();
        assert(reader.remaining() =~= data.drop_first());
        match T::deserialize(reader) {
            Ok(v) => {
                let ghost n = T::spec_deserialize(data.drop_first())->Ok_0.1;
                assert(reader.remaining() =~= data.skip(n + 1));
                Ok(Some(v))
            },
            Err(e) => {
                *reader = saved;
                Err(e)
            },
        }
    }
}

/// The encodings of `items`, one after the other, or the first error.
pub open spec fn spec_serialize_all<T: Serialize>(items: Seq<T>) -> Result<Seq<u8>, SerializationError>
    decreases items.len(),
{
    if items.len() == 0 {
        Ok(Seq::empty())
    } else {
        match spec_serialize_all(items.drop_last()) {
            Err(e) => Err(e),
            Ok(b) => match items.last().spec_serialize() {
                Ok(c) => Ok(b + c),
                Err(e) => Err(e),
            },
        }
    }
}

/// Decoding `count` values one after the other from the front of `data`.
pub open spec fn spec_deserialize_n<T: Deserialize>(data: Seq<u8>, count: nat) -> Result<(Seq<T::V>, int), SerializationError>
    decreases count,
{
    if count == 0 {
        Ok((Seq::empty(), 0))
    } else {
        match T::spec_deserialize(data) {
            Err(e) => Err(e),
            Ok((v, n)) => match spec_deserialize_n::<T>(data.skip(n), (count - 1) as nat) {
                Err(e) => Err(e),
                Ok((vs, m)) => Ok((seq![v] + vs, n + m)),
            },
        }
    }
}

/// The outcome `r` of decoding the rest, after `done` values taking `used` bytes.
pub open spec fn after_prefix<V>(done: Seq<V>, used: int, r: Result<(Seq<V>, int), SerializationError>) -> Result<(Seq<V>, int), SerializationError> {
    match r {
        Ok((vs, m)) => Ok((done + vs, used + m)),
        Err(e) => Err(e),
    }
}

impl<T: Serialize> Serialize for Vec<T> {
    /// The element count as a `VarInt`, then the elements; more elements
    /// than a `VarInt` can count is an error.
    open spec fn spec_serialize(&self) -> Result<Seq<u8>, SerializationError> {
        if self@.len() > i32::MAX {
            Err(SerializationError::InvalidLength(self@.len() as i64))
        } else {
            match spec_serialize_all(self@) {
                Ok(b) => Ok(spec_varint(self@.len() as i32) + b),
                Err(e) => Err(e),
            }
        }
    }

    fn serialize(&self, buf: &mut Vec<u8>) -> (r: Result<(), SerializationError>) {
        if self.len() > 0x7fff_ffff {
            return Err(SerializationError::InvalidLength(self.len() as i64));
        }
        let start = buf.len();
        VarInt(self.len() as i32).write_sync(buf);
        let ghost mid = buf@;
        let mut i: usize = 0;
        while i < self.len()
            invariant
                i <= self@.len(),
                self@.len() <= i32::MAX,
                start == old(buf)@.len(),
                mid == old(buf)@ + spec_varint(self@.len() as i32),
                spec_serialize_all(self@.take(i as int)) is Ok,
                buf@ == mid + spec_serialize_all(self@.take(i as int))->Ok_0,
            decreases self@.len() - i,
        {
            assert(self@.take(i + 1).drop_last() =~= self@.take(i as int));
            assert(self@.take(i + 1).last() == self@[i as int]);
            match self[i].serialize(buf) {
                Ok(()) => {},
                Err(e) => {
                    proof {
                        lemma_serialize_all_prefix_err(self@, i + 1);
                    }
                    buf.truncate(start);
                    assert(buf@ =~= old(buf)@);
                    return Err(e);
                },
            }
            i = i + 1;
            assert(buf@ =~= mid + spec_serialize_all(self@.take(i as int))->Ok_0);
        }
        assert(self@.take(i as int) =~= self@);
        Ok(())
    }
}

/// An error in encoding a prefix is the error of encoding the whole sequence.
proof fn lemma_serialize_all_prefix_err<T: Serialize>(items: Seq<T>, i: int)
    requires
        0 <= i <= items.len(),
        spec_serialize_all(items.take(i)) is Err,
    ensures
        spec_serialize_all(items) == spec_serialize_all(items.take(i)),
    decreases items.len() - i,
{
    if i < items.len() {
        assert(items.take(i + 1).drop_last() =~= items.take(i));
        lemma_serialize_all_prefix_err(items, i + 1);
    } else {
        assert(items.take(i) =~= items);
    }
}

impl<T: Deserialize> Deserialize for Vec<T> {
    /// A non-negative element count as a `VarInt`, then that many elements.
    open spec fn spec_deserialize(data: Seq<u8>) -> Result<(Seq<T::V>, int), SerializationError> {
        match spec_read_varint(data) {
            Err(e) => Err(SerializationError::VarInt(e)),
            Ok((len, n)) => if len < 0 {
                Err(SerializationError::InvalidLength(len as i64))
            } else {
                after_prefix(Seq::empty(), n, spec_deserialize_n::<T>(data.skip(n), len as nat))
            },
        }
    }

    fn deserialize(reader: &mut Cursor) -> (r: Result<Vec<T>, SerializationError>) {
        let saved = *reader;
        let len = match VarInt::read_sync(reader) {
            Ok(v) => v.0,
            Err(e) => return Err(SerializationError::VarInt(e)),
        };
        if len < 0 {
            *reader = saved;
            return Err(SerializationError::InvalidLength(len as i64));
        }
        let ghost data = old(reader).remaining();
        let ghost n0 = spec_read_varint(data)->Ok_0.1;
        let ghost rem0 = reader.remaining();
        let count = len as usize;
        let mut out: Vec<T> = Vec::new();
        let mut i: usize = 0;
        let ghost mut used: int = 0;
        assert(rem0.skip(0) =~= rem0);
        assert(out.deep_view() =~= Seq::<T::V>::empty());
        while i < count
            invariant
                i <= count,
                count == len,
                len >= 0,
                saved == *old(reader),
                data == old(reader).remaining(),
                spec_read_varint(data) == Ok::<(i32, int), crate::varint::VarIntError>((len, n0)),
                rem0 == data.skip(n0),
                0 <= n0 <= data.len(),
                0 <= used <= rem0.len(),
                reader.spec_bytes() == old(reader).spec_bytes(),
                reader.spec_position() == old(reader).spec_position() + n0 + used,
                reader.remaining() == rem0.skip(used),
                spec_deserialize_n::<T>(rem0, count as nat) == after_prefix(out.deep_view(), used,
                    spec_deserialize_n::<T>(rem0.skip(used), (count - i) as nat)),
            decreases count - i,
        {
            let ghost before = out.deep_view();
            let ghost here = reader.remaining();
            match T::deserialize(reader) {
                Ok(x) => {
                    let ghost n = T::spec_deserialize(here)->Ok_0.1;
                    out.push(x);
                    proof {
                        assert(out.deep_view() =~= before.push(x.deep_view()));
                        assert(here.skip(n) =~= rem0.skip(used + n));
                        match spec_deserialize_n::<T>(here.skip(n), (count - i - 1) as nat) {
                            Ok((vs, m)) => {
                                assert(before + (seq![x.deep_view()] + vs) =~= out.deep_view() + vs);
                            },
                            Err(_) => {},
                        }
                        used = used + n;
                    }
                },
                Err(e) => {
                    *reader = saved;
                    return Err(e);
                },
            }
            i = i + 1;
        }
        proof {
            assert(reader.remaining() =~= data.skip(n0 + used));
            assert(Seq::<T::V>::empty() + out.deep_view() =~= out.deep_view());
        }
        Ok(out)
    }
}

/// Bytes written and read verbatim, without a length prefix.
#[derive(Debug, Clone, PartialEq, Eq, Default)]
pub struct RawBytes(pub Vec<u8>);

impl RawBytes {
    /// Read exactly `n` bytes. On success the reader is advanced past them; on
    /// error it is left as it was.
    pub fn read_exact(reader: &mut Cursor, n: usize) -> (r: Result<RawBytes, SerializationError>)
        ensures
            n <= old(reader).remaining().len() ==> (r matches Ok(b) && b.0@ == old(reader).remaining().take(n as int)
                && advanced(*old(reader), *final(reader), n as int)),
            n > old(reader).remaining().len() ==> r == Err::<RawBytes, SerializationError>(SerializationError::UnexpectedEof)
                && *final(reader) == *old(reader),
    {
        match reader.read_bytes(n) {
            Ok(v) => Ok(RawBytes(v)),
            Err(e) => Err(e),
        }
    }
}

impl DeepView for RawBytes {
    type V = Seq<u8>;

    open spec fn deep_view(&self) -> Seq<u8> {
        self.0@
    }
}

impl Serialize for RawBytes {
    open spec fn spec_serialize(&self) -> Result<Seq<u8>, SerializationError> {
        Ok(self.0@)
    }

    fn serialize(&self, buf: &mut Vec<u8>) -> (r: Result<(), SerializationError>) {
        append_bytes(buf, self.0.as_slice());
        Ok(())
    }
}

impl Deserialize for RawBytes {
    /// Everything that is left.
    open spec fn spec_deserialize(data: Seq<u8>) -> Result<(Seq<u8>, int), SerializationError> {
        Ok((data, data.len() as int))
    }

    fn deserialize(reader: &mut Cursor) -> (r: Result<RawBytes, SerializationError>) {
        let n = reader.remaining_len();
        let r = RawBytes::read_exact(reader, n);
        assert(old(reader).remaining().take(n as int) =~= old(reader).remaining());
        r
    }
}


/// A type whose decoding inverts its encoding.
pub trait RoundTrip: Serialize + Deserialize {
    /// Decoding the encoding of a value gives back the value (by its deep
    /// view) and consumes exactly the encoded bytes, whatever follows them.
    proof fn lemma_round_trip(&self, rest: Seq<u8>)
        ensures
            self.spec_serialize() is Ok ==> Self::spec_deserialize(self.spec_serialize()->Ok_0 + rest)
                == Ok::<(Self::V, int), SerializationError>((self.deep_view(), self.spec_serialize()->Ok_0.len() as int)),
    ;
}

/// Raw bytes read back everything that follows, so they come back exactly
/// when nothing follows them.
pub proof fn lemma_raw_bytes_round_trip(b: RawBytes)
    ensures
        RawBytes::spec_deserialize(b.spec_serialize()->Ok_0) == Ok::<(Seq<u8>, int), SerializationError>((b.deep_view(), b.0@.len() as int)),
{
}

impl RoundTrip for String {
    proof fn lemma_round_trip(&self, rest: Seq<u8>) {
        lemma_string_round_trip(self@, MAX_STRING_LEN, rest);
    }
}

/// Decoding a string encoded with a bound gives it back under the same bound.
pub proof fn lemma_string_round_trip(s: Seq<char>, max: usize, rest: Seq<u8>)
    ensures
        spec_string_with_max(s, max) is Ok ==> spec_parse_string_with_max(spec_string_with_max(s, max)->Ok_0 + rest, max)
            == Ok::<(Seq<char>, int), SerializationError>((s, spec_string_with_max(s, max)->Ok_0.len() as int)),
{
    if spec_string_with_max(s, max) is Ok {
        let bytes = encode_utf8(s);
        let len = bytes.len() as i32;
        let data = spec_string_with_max(s, max)->Ok_0 + rest;
        lemma_varint_encode_decode(len, bytes + rest);
        assert(data =~= spec_varint(len) + (bytes + rest));
        let n = spec_varint(len).len() as int;
        lemma_utf8_len_bound(s);
        assert(data.subrange(n, n + len) =~= bytes);
        broadcast use vstd::utf8::encode_utf8_valid_utf8, vstd::utf8::encode_utf8_decode_utf8;
        assert(valid_utf8(bytes));
        assert(decode_utf8(bytes) == s);
    }
}

impl<T: RoundTrip> RoundTrip for Option<T> {
    proof fn lemma_round_trip(&self, rest: Seq<u8>) {
        match self {
            None => {},
            Some(v) => {
                v.lemma_round_trip(rest);
                if v.spec_serialize() is Ok {
                    let b = v.spec_serialize()->Ok_0;
                    assert((seq![1u8] + b + rest).drop_first() =~= b + rest);
                }
            },
        }
    }
}

/// When a sequence encodes, its encoding is that of the first item followed
/// by that of the others.
proof fn lemma_serialize_all_front<T: Serialize>(items: Seq<T>)
    requires
        items.len() > 0,
        spec_serialize_all(items) is Ok,
    ensures
        items[0].spec_serialize() is Ok,
        spec_serialize_all(items.drop_first()) is Ok,
        spec_serialize_all(items)->Ok_0 == items[0].spec_serialize()->Ok_0 + spec_serialize_all(items.drop_first())->Ok_0,
    decreases items.len(),
{
    if items.len() == 1 {
        assert(items.drop_last().len() == 0);
        assert(items.drop_first().len() == 0);
        assert(items.last() == items[0]);
        assert(spec_serialize_all(items)->Ok_0 =~= items[0].spec_serialize()->Ok_0 + Seq::<u8>::empty());
    } else {
        lemma_serialize_all_front(items.drop_last());
        assert(items.drop_last().drop_first() =~= items.drop_first().drop_last());
        assert(items.drop_first().last() == items.last());
        assert(items.drop_last()[0] == items[0]);
        let a = items[0].spec_serialize()->Ok_0;
        let m = spec_serialize_all(items.drop_first().drop_last())->Ok_0;
        let z = items.last().spec_serialize()->Ok_0;
        assert(a + m + z =~= a + (m + z));
    }
}

/// Decoding the encodings of items, one after the other, gives the items back.
proof fn lemma_deserialize_n_round_trip<T: RoundTrip>(items: Seq<T>, rest: Seq<u8>)
    requires
        spec_serialize_all(items) is Ok,
    ensures
        spec_deserialize_n::<T>(spec_serialize_all(items)->Ok_0 + rest, items.len())
            == Ok::<(Seq<T::V>, int), SerializationError>((Seq::new(items.len(), |i: int| items[i].deep_view()), spec_serialize_all(items)->Ok_0.len() as int)),
    decreases items.len(),
{
    if items.len() == 0 {
        assert(Seq::new(0, |i: int| items[i].deep_view()) =~= Seq::<T::V>::empty());
    } else {
        lemma_serialize_all_front(items);
        let head = items[0].spec_serialize()->Ok_0;
        let tail = spec_serialize_all(items.drop_first())->Ok_0;
        let data = spec_serialize_all(items)->Ok_0 + rest;
        items[0].lemma_round_trip(tail + rest);
        assert(data =~= head + (tail + rest));
        assert(data.skip(head.len() as int) =~= tail + rest);
        lemma_deserialize_n_round_trip(items.drop_first(), rest);
        let rest_views = Seq::new(items.drop_first().len(), |i: int| items.drop_first()[i].deep_view());
        assert(seq![items[0].deep_view()] + rest_views =~= Seq::new(items.len(), |i: int| items[i].deep_view()));
    }
}

impl<T: RoundTrip> RoundTrip for Vec<T> {
    proof fn lemma_round_trip(&self, rest: Seq<u8>) {
        if self.spec_serialize() is Ok {
            let len = self@.len() as i32;
            let body = spec_serialize_all(self@)->Ok_0;
            let data = self.spec_serialize()->Ok_0 + rest;
            assert(data =~= spec_varint(len) + (body + rest));
            lemma_varint_encode_decode(len, body + rest);
            let n = spec_varint(len).len() as int;
            assert(data.skip(n) =~= body + rest);
            lemma_deserialize_n_round_trip(self@, rest);
            assert(Seq::<T::V>::empty() + Seq::new(self@.len(), |i: int| self@[i].deep_view()) =~= self.deep_view());
        }
    }
}

} // verus!
