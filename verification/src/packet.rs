//! Packet framing.
//!
//! Every packet travels in a length-prefixed frame. Without compression a
//! frame is `VarInt(length) VarInt(packet_id) payload`; once compression is on
//! it is `VarInt(length) VarInt(data_length) data`, where `data_length` is 0
//! for an inner `[packet_id][payload]` sent as is, or else its length before
//! zlib deflated it.

use vstd::prelude::*;
use crate::compression::{CompressionError, DEFAULT_LEVEL, compress_zlib, compression_io_error, decompress_zlib, zlib_deflated, zlib_inflated};
use crate::ser::{append_bytes, Cursor, Deserialize, RoundTrip, SerializationError, Serialize, advanced};
use crate::varint::{VarInt, VarIntError, spec_read_varint, spec_varint, lemma_read_varint_len, lemma_varint_encode_decode};

verus! {

/// Errors that can occur during packet framing.
#[derive(Debug)]
pub enum PacketError {
    /// A VarInt could not be decoded.
    VarInt(VarIntError),
    /// An underlying I/O error occurred: the input ended inside a frame, or
    /// the zlib encoder or decoder reported an error.
    Io(std::io::Error),
    /// A serialization error occurred while encoding/decoding a field.
    Serialization(SerializationError),
    /// Packet length or data length was negative or otherwise invalid.
    InvalidLength(i64),
}

/// `std::io::Error::from(ErrorKind::UnexpectedEof)`: the error that reading
/// past the end of the input reports. Nothing is stated of the value.
#[verifier::external_body]
fn unexpected_eof_error() -> (e: std::io::Error) {
    std::io::Error::from(std::io::ErrorKind::UnexpectedEof)
}

impl PacketError {
    /// The framing error for a failed compression or decompression: an I/O
    /// error whose message carries the zlib error's.
    pub fn from_compression(e: CompressionError) -> (r: Self)
        ensures
            r is Io,
    {
        match e {
            CompressionError::Io(inner) => PacketError::Io(compression_io_error(inner)),
        }
    }
}

/// A packet struct that has a known numeric ID.
pub trait PacketId {
    /// The ID of this packet. The default is for impls that do not define
    /// the ID, and states nothing usable.
    open spec fn spec_packet_id(&self) -> i32 {
        arbitrary()
    }

    /// The numeric ID that identifies this packet on the wire.
    fn packet_id(&self) -> (id: i32)
        ensures
            id == self.spec_packet_id(),
    ;
}

/// A length-delimited on-wire frame. `data` is everything after the leading
/// length `VarInt`: `[packet_id][payload]` without compression,
/// `[data_length][compressed_or_raw_data]` with it.
#[derive(Debug, Clone)]
pub struct RawPacket {
    /// The raw frame data (not including the leading length VarInt).
    pub data: Vec<u8>,
}

/// A decoded packet: its numeric ID and its payload (the packet's fields,
/// without the ID).
#[derive(Debug, Clone)]
pub struct UncompressedPacket {
    /// The numeric packet ID.
    pub packet_id: i32,
    /// The packet fields serialized according to the protocol.
    pub payload: Vec<u8>,
}

/// A frame on the wire: its length as a `VarInt`, then its data.
pub open spec fn spec_length_prefixed(data: Seq<u8>) -> Seq<u8> {
    spec_varint(data.len() as i32) + data
}

/// Reading a length-prefixed frame from the front of `bytes`: the frame data
/// and how many bytes the frame takes, or the error (`None` when the input
/// ends inside the frame, which is reported as an I/O error).
pub open spec fn spec_read_frame(bytes: Seq<u8>) -> Result<(Seq<u8>, int), Option<PacketError>> {
    match spec_read_varint(bytes) {
        Err(e) => Err(Some(PacketError::VarInt(e))),
        Ok((len, n)) => if len < 0 {
            Err(Some(PacketError::InvalidLength(len as i64)))
        } else if bytes.len() < n + len {
            Err(None)
        } else {
            Ok((bytes.subrange(n, n + len), n + len))
        },
    }
}

/// The `[packet_id][payload]` bytes of a packet.
pub open spec fn spec_id_and_payload(packet_id: i32, payload: Seq<u8>) -> Seq<u8> {
    spec_varint(packet_id) + payload
}

/// Splitting `[packet_id][payload]` bytes into the ID and the payload.
pub open spec fn spec_split_id(data: Seq<u8>) -> Result<(i32, Seq<u8>), PacketError> {
    match spec_read_varint(data) {
        Ok((id, n)) => Ok((id, data.skip(n))),
        Err(e) => Err(PacketError::VarInt(e)),
    }
}

/// The frame data of a packet under compression threshold `t`: below the
/// threshold a `data_length` of 0 and the inner bytes as they are; at or
/// above it the inner length, then the stream that deflating the inner bytes
/// at the default level gives (meaningful where that succeeds).
pub open spec fn spec_compressed_frame(packet_id: i32, payload: Seq<u8>, t: i32) -> Seq<u8> {
    let inner = spec_id_and_payload(packet_id, payload);
    if inner.len() >= (t as usize) {
        spec_varint(inner.len() as i32) + zlib_deflated(inner, DEFAULT_LEVEL)->Some_0
    } else {
        spec_varint(0) + inner
    }
}

/// Decoding frame data under an optional compression threshold: the packet,
/// or the error (`None` when the zlib decoder failed, which is reported as
/// an I/O error).
pub open spec fn spec_uncompress(data: Seq<u8>, threshold: Option<i32>) -> Result<(i32, Seq<u8>), Option<PacketError>> {
    if threshold is None {
        match spec_split_id(data) {
            Ok(p) => Ok(p),
            Err(e) => Err(Some(e)),
        }
    } else {
        match spec_read_varint(data) {
            Err(e) => Err(Some(PacketError::VarInt(e))),
            Ok((data_length, n)) => if data_length == 0 {
                match spec_split_id(data.skip(n)) {
                    Ok(p) => Ok(p),
                    Err(e) => Err(Some(e)),
                }
            } else {
                match zlib_inflated(data.skip(n)) {
                    None => Err(None),
                    Some(inner) => match spec_split_id(inner) {
                        Ok(p) => Ok(p),
                        Err(e) => Err(Some(e)),
                    },
                }
            },
        }
    }
}

/// Split `[packet_id][payload]` bytes.
fn split_id(data: &[u8]) -> (r: Result<UncompressedPacket, PacketError>)
    ensures
        match spec_split_id(data@) {
            Ok((id, payload)) => r matches Ok(p) && p.packet_id == id && p.payload@ == payload,
            Err(e) => r matches Err(e2) && e2 == e,
        },
{
    let mut cursor = Cursor::new(data);
    let packet_id = match VarInt::read_sync(&mut cursor) {
        Ok(v) => v,
        Err(e) => return Err(PacketError::VarInt(e)),
    };
    let n = cursor.remaining_len();
    let payload = match cursor.read_bytes(n) {
        Ok(b) => b,
        Err(_) => return Err(PacketError::Io(unexpected_eof_error())),
    };
    proof {
        let k = spec_read_varint(data@)->Ok_0.1;
        assert(payload@ =~= data@.skip(k));
    }
    Ok(UncompressedPacket { packet_id: packet_id.0, payload })
}

impl RawPacket {
    /// Create a `RawPacket` from raw bytes.
    pub fn new(data: Vec<u8>) -> (p: Self)
        ensures
            p.data@ == data@,
    {
        RawPacket { data }
    }

    /// The byte count that a frame's length prefix announces; a negative
    /// length is an error.
    pub fn frame_length(len: VarInt) -> (r: Result<usize, PacketError>)
        ensures
            len.0 < 0 ==> (r matches Err(PacketError::InvalidLength(n)) && n == len.0 as i64),
            len.0 >= 0 ==> r == Ok::<usize, PacketError>(len.0 as usize),
    {
        if len.0 < 0 {
            Err(PacketError::InvalidLength(len.0 as i64))
        } else {
            Ok(len.0 as usize)
        }
    }

    /// Read a length-prefixed frame. On success the reader is advanced past
    /// it; on error it is left as it was.
    pub fn read_sync(reader: &mut Cursor) -> (r: Result<Self, PacketError>)
        ensures
            match spec_read_frame(old(reader).remaining()) {
                Ok((data, n)) => (r matches Ok(p) && p.data@ == data) && advanced(*old(reader), *final(reader), n),
                Err(Some(e)) => (r matches Err(e2) && e2 == e) && *final(reader) == *old(reader),
                Err(None) => (r matches Err(PacketError::Io(_))) && *final(reader) == *old(reader),
            },
    {
        let saved = *reader;
        let prefix = match VarInt::read_sync(reader) {
            Ok(v) => v,
            Err(e) => return Err(PacketError::VarInt(e)),
        };
        let len = match RawPacket::frame_length(prefix) {
            Ok(n) => n,
            Err(e) => {
                *reader = saved;
                return Err(e);
            },
        };
        let ghost bytes = old(reader).remaining();
        let ghost n = spec_read_varint(bytes)->Ok_0.1;
        let data = match reader.read_bytes(len) {
            Ok(d) => d,
            Err(_) => {
                *reader = saved;
                return Err(PacketError::Io(unexpected_eof_error()));
            },
        };
        assert(data@ =~= bytes.subrange(n, n + len));
        assert(reader.remaining() =~= bytes.skip(n + len));
        Ok(RawPacket { data })
    }

    /// Append this frame, length-prefixed.
    pub fn write_sync(&self, buf: &mut Vec<u8>) -> (r: Result<(), PacketError>)
        ensures
            r is Ok,
            final(buf)@ == old(buf)@ + spec_length_prefixed(self.data@),
    {
        VarInt(self.data.len() as i32).write_sync(buf);
        append_bytes(buf, self.data.as_slice());
        assert(buf@ =~= old(buf)@ + spec_length_prefixed(self.data@));
        Ok(())
    }

    /// Interpret this frame as an uncompressed packet (no compression in effect).
    pub fn as_uncompressed(&self) -> (r: Result<UncompressedPacket, PacketError>)
        ensures
            match spec_split_id(self.data@) {
                Ok((id, payload)) => r matches Ok(p) && p.packet_id == id && p.payload@ == payload,
                Err(e) => r matches Err(e2) && e2 == e,
            },
    {
        split_id(self.data.as_slice())
    }

    /// Decode this frame. With `threshold` `None` no compression is in effect
    /// and the frame is `[packet_id][payload]`. With `Some(_)` the frame starts
    /// with `data_length`: 0 means the rest is `[packet_id][payload]` as is,
    /// anything else that the rest is that, zlib-deflated.
    pub fn uncompress(&self, threshold: Option<i32>) -> (r: Result<UncompressedPacket, PacketError>)
        ensures
            match spec_uncompress(self.data@, threshold) {
                Ok((id, payload)) => r matches Ok(p) && p.packet_id == id && p.payload@ == payload,
                Err(Some(e)) => r matches Err(e2) && e2 == e,
                Err(None) => r matches Err(PacketError::Io(_)),
            },
    {
        if threshold.is_none() {
            return self.as_uncompressed();
        }
        let mut cursor = Cursor::new(self.data.as_slice());
        let data_length = match VarInt::read_sync(&mut cursor) {
            Ok(v) => v,
            Err(e) => return Err(PacketError::VarInt(e)),
        };
        let n = cursor.remaining_len();
        let rest = match cursor.read_bytes(n) {
            Ok(b) => b,
            Err(_) => return Err(PacketError::Io(unexpected_eof_error())),
        };
        proof {
            let k = spec_read_varint(self.data@)->Ok_0.1;
            assert(rest@ =~= self.data@.skip(k));
        }
        if data_length.0 == 0 {
            return split_id(rest.as_slice());
        }
        let uncompressed = match decompress_zlib(rest.as_slice()) {
            Ok(d) => d,
            Err(e) => return Err(PacketError::from_compression(e)),
        };
        split_id(uncompressed.as_slice())
    }
}

impl UncompressedPacket {
    /// Create a new `UncompressedPacket`.
    pub fn new(packet_id: i32, payload: Vec<u8>) -> (p: Self)
        ensures
            p.packet_id == packet_id,
            p.payload@ == payload@,
    {
        UncompressedPacket { packet_id, payload }
    }

    /// Decode the front of the payload as a `T`.
    pub fn deserialize_payload<T: Deserialize>(&self) -> (r: Result<T, PacketError>)
        ensures
            match T::spec_deserialize(self.payload@) {
                Ok((v, _)) => r matches Ok(x) && x.deep_view() == v,
                Err(e) => r matches Err(PacketError::Serialization(e2)) && e2 == e,
            },
    {
        let mut cursor = Cursor::new(self.payload.as_slice());
        match T::deserialize(&mut cursor) {
            Ok(v) => Ok(v),
            Err(e) => Err(PacketError::Serialization(e)),
        }
    }

    /// The `[packet_id][payload]` bytes.
    fn id_and_payload(&self) -> (v: Vec<u8>)
        ensures
            v@ == spec_id_and_payload(self.packet_id, self.payload@),
    {
        let mut buf: Vec<u8> = Vec::new();
        VarInt(self.packet_id).write_sync(&mut buf);
        append_bytes(&mut buf, self.payload.as_slice());
        assert(buf@ =~= spec_id_and_payload(self.packet_id, self.payload@));
        buf
    }

    /// Encode into a `RawPacket` frame (no compression).
    pub fn to_raw_packet(&self) -> (r: Result<RawPacket, PacketError>)
        ensures
            r matches Ok(raw) && raw.data@ == spec_id_and_payload(self.packet_id, self.payload@),
    {
        Ok(RawPacket { data: self.id_and_payload() })
    }

    /// Encode into a frame under an optional compression threshold. With
    /// `None` no compression is applied; with `Some(t)` the inner
    /// `[packet_id][payload]` is zlib-compressed when its length is at least
    /// `t`, and sent as is (with `data_length` 0) otherwise. Only compression
    /// can fail. What comes out decodes back to this packet.
    pub fn to_raw_packet_compressed(&self, threshold: Option<i32>) -> (r: Result<RawPacket, PacketError>)
        ensures
            match threshold {
                None => r matches Ok(raw) && raw.data@ == spec_id_and_payload(self.packet_id, self.payload@),
                Some(t) => {
                    let inner = spec_id_and_payload(self.packet_id, self.payload@);
                    &&& r is Ok <==> (inner.len() < (t as usize) || zlib_deflated(inner, DEFAULT_LEVEL) is Some)
                    &&& r matches Ok(raw) ==> raw.data@ == spec_compressed_frame(self.packet_id, self.payload@, t)
                    &&& r matches Ok(raw) ==> (inner.len() >= (t as usize) ==> zlib_inflated(
                        raw.data@.skip(spec_varint(inner.len() as i32).len() as int),
                    ) == Some(inner))
                    &&& r matches Err(e) ==> e is Io
                },
            },
            r matches Ok(raw) ==> (spec_id_and_payload(self.packet_id, self.payload@).len() <= i32::MAX
                ==> spec_uncompress(raw.data@, threshold) == Ok::<(i32, Seq<u8>), Option<PacketError>>((self.packet_id, self.payload@))),
    {
        let t = match threshold {
            None => {
                let r = self.to_raw_packet();
                proof {
                    lemma_split_id_round_trip(self.packet_id, self.payload@);
                }
                return r;
            },
            Some(t) => t,
        };
        let inner = self.id_and_payload();
        let ghost inner_bytes = inner@;
        let mut frame: Vec<u8> = Vec::new();
        if inner.len() >= t as usize {
            let compressed = match compress_zlib(inner.as_slice()) {
                Ok(c) => c,
                Err(e) => return Err(PacketError::from_compression(e)),
            };
            VarInt(inner.len() as i32).write_sync(&mut frame);
            append_bytes(&mut frame, compressed.as_slice());
            proof {
                let n = spec_varint(inner_bytes.len() as i32).len() as int;
                assert(frame@.skip(n) =~= compressed@);
                assert(frame@ =~= spec_compressed_frame(self.packet_id, self.payload@, t));
                if inner_bytes.len() <= i32::MAX {
                    lemma_varint_encode_decode(inner_bytes.len() as i32, compressed@);
                    lemma_split_id_round_trip(self.packet_id, self.payload@);
                }
            }
        } else {
            VarInt(0).write_sync(&mut frame);
            append_bytes(&mut frame, inner.as_slice());
            proof {
                lemma_varint_encode_decode(0, inner_bytes);
                let n = spec_varint(0).len() as int;
                assert(frame@.skip(n) =~= inner_bytes);
                lemma_split_id_round_trip(self.packet_id, self.payload@);
            }
        }
        Ok(RawPacket { data: frame })
    }

    /// Build an `UncompressedPacket` from a packet struct: its ID and its
    /// serialized fields.
    pub fn from_packet<P: PacketId + Serialize>(packet: &P) -> (r: Result<Self, PacketError>)
        ensures
            match packet.spec_serialize() {
                Ok(bytes) => r matches Ok(u) && u.packet_id == packet.spec_packet_id() && u.payload@ == bytes,
                Err(e) => r matches Err(PacketError::Serialization(e2)) && e2 == e,
            },
    {
        let mut payload: Vec<u8> = Vec::new();
        match packet.serialize(&mut payload) {
            Ok(()) => {},
            Err(e) => return Err(PacketError::Serialization(e)),
        }
        assert(payload@ =~= packet.spec_serialize()->Ok_0);
        Ok(UncompressedPacket { packet_id: packet.packet_id(), payload })
    }

    /// Append this packet's frame (uncompressed framing), length-prefixed.
    pub fn write_sync(&self, buf: &mut Vec<u8>) -> (r: Result<(), PacketError>)
        ensures
            r is Ok,
            final(buf)@ == old(buf)@ + spec_length_prefixed(spec_id_and_payload(self.packet_id, self.payload@)),
    {
        let raw = match self.to_raw_packet() {
            Ok(raw) => raw,
            Err(e) => return Err(e),
        };
        raw.write_sync(buf)
    }
}

/// The payload that `from_packet` builds from a packet decodes, through
/// `deserialize_payload`, back to the packet's fields.
pub proof fn lemma_payload_round_trip<P: RoundTrip>(packet: P)
    ensures
        packet.spec_serialize() is Ok ==> P::spec_deserialize(packet.spec_serialize()->Ok_0) == Ok::<(P::V, int), SerializationError>((packet.deep_view(), packet.spec_serialize()->Ok_0.len() as int)),
{
    packet.lemma_round_trip(Seq::empty());
    if packet.spec_serialize() is Ok {
        assert(packet.spec_serialize()->Ok_0 + Seq::<u8>::empty() =~= packet.spec_serialize()->Ok_0);
    }
}

/// Splitting the `[packet_id][payload]` bytes of a packet gives it back.
pub proof fn lemma_split_id_round_trip(packet_id: i32, payload: Seq<u8>)
    ensures
        spec_split_id(spec_id_and_payload(packet_id, payload)) == Ok::<(i32, Seq<u8>), PacketError>((packet_id, payload)),
{
    lemma_varint_encode_decode(packet_id, payload);
    let n = spec_varint(packet_id).len() as int;
    assert(spec_id_and_payload(packet_id, payload).skip(n) =~= payload);
}

/// Reading back a written frame gives its data and consumes exactly it,
/// whatever follows, when its length fits a `VarInt`.
pub proof fn lemma_frame_round_trip(data: Seq<u8>, rest: Seq<u8>)
    requires
        data.len() <= i32::MAX,
    ensures
        spec_read_frame(spec_length_prefixed(data) + rest) == Ok::<(Seq<u8>, int), Option<PacketError>>((data, spec_length_prefixed(data).len() as int)),
{
    let len = data.len() as i32;
    lemma_varint_encode_decode(len, data + rest);
    let n = spec_varint(len).len() as int;
    let bytes = spec_length_prefixed(data) + rest;
    assert(bytes =~= spec_varint(len) + (data + rest));
    assert(bytes.subrange(n, n + len) =~= data);
}

/// The frame written for `data` is the `VarInt` of its length, then `data`
/// itself; when the length fits a `VarInt`, the prefix decodes to exactly
/// that length and exactly `data` follows it.
pub proof fn lemma_frame_layout(data: Seq<u8>)
    ensures
        spec_length_prefixed(data) == spec_varint(data.len() as i32) + data,
        data.len() <= i32::MAX ==> (spec_read_varint(spec_length_prefixed(data)) matches Ok((len, n))
            && len == data.len() && spec_length_prefixed(data).skip(n) == data),
{
    if data.len() <= i32::MAX {
        lemma_varint_encode_decode(data.len() as i32, data);
        assert(spec_length_prefixed(data).skip(spec_varint(data.len() as i32).len() as int) =~= data);
    }
}

/// Reading a frame takes the length that its `VarInt` prefix announces: a
/// prefix that does not decode is a `VarInt` error, a negative length is
/// refused as such, fewer bytes than announced are an I/O error, and
/// otherwise the frame is exactly the announced number of bytes right after
/// the prefix, and nothing more is consumed.
pub proof fn lemma_read_frame_takes_announced(bytes: Seq<u8>)
    ensures
        spec_read_varint(bytes) matches Err(e) ==> spec_read_frame(bytes) == Err::<(Seq<u8>, int), Option<PacketError>>(
            Some(PacketError::VarInt(e)),
        ),
        spec_read_varint(bytes) matches Ok((len, n)) ==> {
            &&& len < 0 ==> spec_read_frame(bytes) == Err::<(Seq<u8>, int), Option<PacketError>>(
                Some(PacketError::InvalidLength(len as i64)),
            )
            &&& 0 <= len && bytes.len() < n + len ==> spec_read_frame(bytes) == Err::<(Seq<u8>, int), Option<PacketError>>(None)
            &&& 0 <= len && n + len <= bytes.len() ==> (spec_read_frame(bytes) matches Ok((frame, used))
                && frame.len() == len && used == n + len && forall|k: int| 0 <= k < len ==> frame[k] == bytes[n + k])
        },
{
    lemma_read_varint_len(bytes);
}

/// A packet's bytes are its ID as a `VarInt`, then its payload: the front
/// decodes to the ID and exactly the payload follows. Splitting bytes takes
/// the `VarInt` at their front as the ID and everything after it as the
/// payload, and fails exactly when that `VarInt` does not decode.
pub proof fn lemma_id_and_payload_layout(packet_id: i32, payload: Seq<u8>, data: Seq<u8>)
    ensures
        spec_read_varint(spec_id_and_payload(packet_id, payload)) matches Ok((id, n)) && id == packet_id
            && spec_id_and_payload(packet_id, payload).skip(n) == payload,
        spec_read_varint(data) matches Ok((id, n)) ==> spec_split_id(data) == Ok::<(i32, Seq<u8>), PacketError>((id, data.skip(n))),
        spec_read_varint(data) matches Err(e) ==> spec_split_id(data) == Err::<(i32, Seq<u8>), PacketError>(PacketError::VarInt(e)),
{
    lemma_varint_encode_decode(packet_id, payload);
    assert(spec_id_and_payload(packet_id, payload).skip(spec_varint(packet_id).len() as int) =~= payload);
}

/// Under a threshold `t`, a packet whose bytes are shorter than `t` is
/// framed as a `VarInt` 0 and then its bytes as they are; one whose bytes
/// are at least `t` long is framed as the `VarInt` of their length and then
/// what deflating them at the default level gives.
pub proof fn lemma_compressed_frame_layout(packet_id: i32, payload: Seq<u8>, t: i32)
    ensures
        ({
            let inner = spec_varint(packet_id) + payload;
            &&& inner.len() < (t as usize) ==> spec_compressed_frame(packet_id, payload, t) == seq![0u8] + inner
            &&& inner.len() >= (t as usize) ==> spec_compressed_frame(packet_id, payload, t) == spec_varint(inner.len() as i32)
                + zlib_deflated(inner, DEFAULT_LEVEL)->Some_0
        }),
{
    reveal_with_fuel(crate::varint::varint_bytes, 2);
}

/// Without compression, the frame of a packet decodes back to it.
pub proof fn lemma_uncompressed_round_trip(packet_id: i32, payload: Seq<u8>)
    ensures
        spec_uncompress(spec_id_and_payload(packet_id, payload), None) == Ok::<(i32, Seq<u8>), Option<PacketError>>((packet_id, payload)),
{
    lemma_split_id_round_trip(packet_id, payload);
}

/// Under a threshold, a packet sent as is (below the threshold) decodes back
/// to it.
pub proof fn lemma_below_threshold_round_trip(packet_id: i32, payload: Seq<u8>, t: i32)
    requires
        spec_id_and_payload(packet_id, payload).len() < (t as usize),
    ensures
        spec_uncompress(spec_compressed_frame(packet_id, payload, t), Some(t)) == Ok::<(i32, Seq<u8>), Option<PacketError>>((packet_id, payload)),
{
    let inner = spec_id_and_payload(packet_id, payload);
    lemma_varint_encode_decode(0, inner);
    let n = spec_varint(0).len() as int;
    assert(spec_compressed_frame(packet_id, payload, t).skip(n) =~= inner);
    lemma_split_id_round_trip(packet_id, payload);
}

} // verus!
