//! Packet framing and compression.

use minecraft_protocol::compression::{compress_zlib, compress_zlib_level, decompress_zlib};
use minecraft_protocol::packet::{PacketError, RawPacket, UncompressedPacket};
use minecraft_protocol::ser::Cursor;
use minecraft_protocol::ser::Serialize;
use minecraft_protocol::varint::{VarInt, VarIntError};

#[test]
fn raw_packet_write_then_read() {
    let raw = RawPacket::new(vec![0x00, 0x2f, 0x01]);
    let mut buf = Vec::new();
    raw.write_sync(&mut buf).unwrap();
    assert_eq!(buf, &[0x03, 0x00, 0x2f, 0x01]);
    buf.push(0x99);
    let mut cursor = Cursor::new(&buf);
    let back = RawPacket::read_sync(&mut cursor).unwrap();
    assert_eq!(back.data, vec![0x00, 0x2f, 0x01]);
    assert_eq!(cursor.position(), 4);
}

#[test]
fn raw_packet_read_negative_length() {
    let data: &[u8] = &[0xff, 0xff, 0xff, 0xff, 0x0f];
    let mut cursor = Cursor::new(data);
    match RawPacket::read_sync(&mut cursor) {
        Err(PacketError::InvalidLength(n)) => assert_eq!(n, -1),
        other => panic!("unexpected {:?}", other),
    }
    assert_eq!(cursor.position(), 0);
}

#[test]
fn raw_packet_read_truncated() {
    let data: &[u8] = &[0x05, 0x01, 0x02];
    let mut cursor = Cursor::new(data);
    match RawPacket::read_sync(&mut cursor) {
        Err(PacketError::Io(e)) => assert_eq!(e.kind(), std::io::ErrorKind::UnexpectedEof),
        other => panic!("unexpected {:?}", other),
    }
    assert_eq!(cursor.position(), 0);
}

#[test]
fn uncompressed_packet_to_raw_and_back() {
    let up = UncompressedPacket::new(300, vec![0xde, 0xad]);
    let raw = up.to_raw_packet().unwrap();
    assert_eq!(raw.data, vec![0xac, 0x02, 0xde, 0xad]);
    let back = raw.as_uncompressed().unwrap();
    assert_eq!(back.packet_id, 300);
    assert_eq!(back.payload, vec![0xde, 0xad]);
}

#[test]
fn as_uncompressed_of_empty_frame_fails() {
    let raw = RawPacket::new(Vec::new());
    assert!(matches!(raw.as_uncompressed(), Err(PacketError::VarInt(VarIntError::UnexpectedEof))));
}

#[test]
fn uncompressed_packet_write_sync_frames() {
    let up = UncompressedPacket::new(0x00, vec![0x00]);
    let mut buf = Vec::new();
    up.write_sync(&mut buf).unwrap();
    assert_eq!(buf, &[0x02, 0x00, 0x00]);
}

#[test]
fn compressed_frame_below_threshold_is_sent_as_is() {
    let up = UncompressedPacket::new(0x26, vec![1, 2, 3]);
    let raw = up.to_raw_packet_compressed(Some(256)).unwrap();
    assert_eq!(raw.data, vec![0x00, 0x26, 1, 2, 3]);
    let back = raw.uncompress(Some(256)).unwrap();
    assert_eq!(back.packet_id, 0x26);
    assert_eq!(back.payload, vec![1, 2, 3]);
}

#[test]
fn compressed_frame_at_threshold_is_deflated() {
    let payload: Vec<u8> = (0..600u32).map(|i| (i % 7) as u8).collect();
    let up = UncompressedPacket::new(0x26, payload.clone());
    let raw = up.to_raw_packet_compressed(Some(256)).unwrap();
    // data_length = 601 = [0xd9, 0x04], then a zlib stream
    assert_eq!(&raw.data[..2], &[0xd9, 0x04]);
    assert_eq!(raw.data[2], 0x78);
    assert!(raw.data.len() < 601);
    let back = raw.uncompress(Some(256)).unwrap();
    assert_eq!(back.packet_id, 0x26);
    assert_eq!(back.payload, payload);
}

#[test]
fn compression_threshold_none_is_plain_framing() {
    let up = UncompressedPacket::new(7, vec![9]);
    let raw = up.to_raw_packet_compressed(None).unwrap();
    assert_eq!(raw.data, vec![7, 9]);
    let back = raw.uncompress(None).unwrap();
    assert_eq!(back.packet_id, 7);
    assert_eq!(back.payload, vec![9]);
}

#[test]
fn uncompress_corrupt_stream_fails() {
    let raw = RawPacket::new(vec![0x05, 0x01, 0x02, 0x03]);
    match raw.uncompress(Some(1)) {
        Err(PacketError::Io(e)) => {
            assert_eq!(e.kind(), std::io::ErrorKind::Other);
            assert!(e.to_string().starts_with("Compression I/O error: "));
        }
        other => panic!("unexpected {:?}", other),
    }
}

#[test]
fn zlib_round_trip() {
    let data = b"Hello, Minecraft!";
    let compressed = compress_zlib(data).unwrap();
    assert_eq!(
        compressed,
        vec![120, 156, 243, 72, 205, 201, 201, 215, 81, 240, 205, 204, 75, 77, 46, 74, 76, 43, 81, 4, 0, 53, 169, 5, 251]
    );
    let decompressed = decompress_zlib(&compressed).unwrap();
    assert_eq!(&decompressed, data);
}

#[test]
fn zlib_level_zero_stores() {
    let data = vec![0x41u8; 100];
    let compressed = compress_zlib_level(&data, 0).unwrap();
    assert!(compressed.len() > data.len());
    assert_eq!(decompress_zlib(&compressed).unwrap(), data);
}

#[test]
fn decompress_garbage_fails() {
    assert!(decompress_zlib(&[1, 2, 3, 4]).is_err());
}

struct Handshake {
    protocol_version: VarInt,
    server_address: String,
    server_port: u16,
    next_state: VarInt,
}

impl Serialize for Handshake {
    fn serialize(&self, buf: &mut Vec<u8>) -> Result<(), minecraft_protocol::ser::SerializationError> {
        self.protocol_version.serialize(buf)?;
        self.server_address.serialize(buf)?;
        self.server_port.serialize(buf)?;
        self.next_state.serialize(buf)?;
        Ok(())
    }
}

impl minecraft_protocol::packet::PacketId for Handshake {
    fn packet_id(&self) -> i32 {
        0x00
    }
}

#[test]
fn packet_from_struct_and_back() {
    let hs = Handshake {
        protocol_version: VarInt(765),
        server_address: "localhost".to_string(),
        server_port: 25565,
        next_state: VarInt(1),
    };
    let up = UncompressedPacket::from_packet(&hs).unwrap();
    assert_eq!(up.packet_id, 0x00);
    assert_eq!(up.payload[..2], [0xfd, 0x05]);
    let version: VarInt = up.deserialize_payload().unwrap();
    assert_eq!(version.0, 765);
    assert_eq!(up.payload.len(), 2 + 1 + 9 + 2 + 1);
}

#[test]
fn compressed_frame_at_threshold_two() {
    let up = UncompressedPacket::new(0x01, vec![0xAA]);
    let raw = up.to_raw_packet_compressed(Some(2)).unwrap();
    assert_eq!(raw.data[0], 0x02);
    assert_eq!(decompress_zlib(&raw.data[1..]).unwrap(), vec![0x01, 0xAA]);
}
