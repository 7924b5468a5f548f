//! Concrete instances of the library's laws, and error cases.

use minecraft_protocol::encryption::{Cfb8Decryptor, Cfb8Encryptor};
use minecraft_protocol::ser::{
    deserialize_string_with_max, serialize_string_with_max, Cursor, Deserialize, RawBytes, SerializationError, Serialize,
};
use minecraft_protocol::types::{BitSet, FixedBitSet, FixedPoint5, Identifier, Nbt, Position, TeleportFlags};
use minecraft_protocol::varint::{VarInt, VarIntDecoder, VarIntError, VarIntStep, VarLong};

#[test]
fn position_reference_example_bytes() {
    let pos = Position::new(18357644, 831, -20882616);
    let mut buf = Vec::new();
    pos.serialize(&mut buf).unwrap();
    assert_eq!(buf, &[0x46, 0x07, 0x63, 0x2c, 0x15, 0xb4, 0x83, 0x3f]);
}

#[test]
fn position_out_of_range_keeps_low_bits() {
    let pos = Position::new(1 << 25, 2048, -(1 << 25) - 1);
    let mut buf = Vec::new();
    pos.serialize(&mut buf).unwrap();
    let back = Position::deserialize(&mut Cursor::new(&buf)).unwrap();
    assert_eq!(back, Position::new(-(1 << 25), -2048, (1 << 25) - 1));
}

#[test]
fn position_short_input_fails_and_keeps_cursor() {
    let data: &[u8] = &[1, 2, 3];
    let mut cursor = Cursor::new(data);
    assert_eq!(Position::deserialize(&mut cursor), Err(SerializationError::UnexpectedEof));
    assert_eq!(cursor.position(), 0);
}

#[test]
fn varint_decoder_matches_cursor() {
    let mut d = VarIntDecoder::new();
    let bytes = [0xdd, 0xc7, 0x01];
    let mut result = None;
    for (i, b) in bytes.iter().enumerate() {
        match d.feed(*b) {
            VarIntStep::NeedMore(next) => {
                assert!(i < 2);
                d = next;
            }
            VarIntStep::Done(v) => {
                result = Some(v.0);
                break;
            }
            VarIntStep::Failed(e) => panic!("{:?}", e),
        }
    }
    assert_eq!(result, Some(25565));
}

#[test]
fn varint_decoder_too_long() {
    let mut d = VarIntDecoder::new();
    for i in 0..5 {
        match d.feed(0x80) {
            VarIntStep::NeedMore(next) => d = next,
            VarIntStep::Failed(e) => {
                assert_eq!(i, 4);
                assert_eq!(e, VarIntError::TooLong);
                return;
            }
            VarIntStep::Done(_) => panic!("unexpected value"),
        }
    }
    panic!("decoder accepted five continuation bytes");
}

#[test]
fn varint_errors_are_distinguished() {
    let data: &[u8] = &[0x80, 0x80];
    assert_eq!(VarInt::read_sync(&mut Cursor::new(data)), Err(VarIntError::UnexpectedEof));
    let data: &[u8] = &[0x80, 0x80, 0x80, 0x80, 0x80, 0x01];
    assert_eq!(VarInt::read_sync(&mut Cursor::new(data)), Err(VarIntError::TooLong));
    assert_eq!(
        VarInt::deserialize(&mut Cursor::new(data)),
        Err(SerializationError::VarInt(VarIntError::TooLong))
    );
}

#[test]
fn varint_fifth_byte_high_bits_are_dropped() {
    let data: &[u8] = &[0xff, 0xff, 0xff, 0xff, 0x7f];
    assert_eq!(VarInt::read_sync(&mut Cursor::new(data)).unwrap().0, -1);
}

#[test]
fn varlong_write_sync_and_len() {
    let mut buf = Vec::new();
    VarLong(300).write_sync(&mut buf);
    assert_eq!(buf, &[0xac, 0x02]);
    assert_eq!(VarLong(300).encoded_len(), 2);
    let v: i64 = VarLong::from(5i64).into();
    assert_eq!(v, 5);
}

#[test]
fn bitset_set_clear_laws() {
    let mut bs = BitSet::with_capacity(130);
    assert_eq!(bs.data, vec![0, 0, 0]);
    bs.set(63);
    assert_eq!(bs.data[0], i64::MIN);
    bs.set(200);
    assert_eq!(bs.data.len(), 4);
    assert!(bs.get(200) && bs.get(63) && !bs.get(199));
    bs.clear(63);
    assert!(!bs.get(63) && bs.get(200));
    bs.clear(10_000);
    assert_eq!(bs.data.len(), 4);
}

#[test]
fn bitset_negative_length_is_rejected() {
    let data: &[u8] = &[0xff, 0xff, 0xff, 0xff, 0x0f];
    assert_eq!(
        BitSet::deserialize(&mut Cursor::new(data)),
        Err(SerializationError::InvalidLength(-1))
    );
}

#[test]
fn fixed_bitset_out_of_range_set_is_ignored() {
    let mut fbs = FixedBitSet::new(8);
    fbs.set(8);
    assert_eq!(fbs.data, vec![0]);
    assert!(!fbs.get(8));
    let data: &[u8] = &[0xff];
    assert!(FixedBitSet::deserialize_fixed(&mut Cursor::new(data), 9).is_err());
}

#[test]
fn identifier_value_keeps_later_colons() {
    let id = Identifier::new("a:b:c");
    assert_eq!(id.namespace(), "a");
    assert_eq!(id.value(), "b:c");
    let bare = Identifier("stone".to_string());
    assert_eq!(bare.namespace(), "minecraft");
    assert_eq!(bare.value(), "stone");
}

#[test]
fn string_too_long_is_rejected() {
    let s = "\u{1F600}\u{1F600}";
    let mut buf = vec![7u8];
    assert_eq!(serialize_string_with_max(s, &mut buf, 3), Err(SerializationError::StringTooLong(3)));
    assert_eq!(buf, vec![7u8]);
    serialize_string_with_max(s, &mut buf, 4).unwrap();
    assert_eq!(buf.len(), 1 + 1 + 8);
    let mut cursor = Cursor::new(&buf[1..]);
    assert_eq!(deserialize_string_with_max(&mut cursor, 3), Err(SerializationError::StringTooLong(3)));
    assert_eq!(cursor.position(), 0);
    assert_eq!(deserialize_string_with_max(&mut cursor, 4).unwrap(), s);
}

#[test]
fn string_invalid_utf8_is_rejected() {
    let data: &[u8] = &[0x02, 0xc3, 0x28];
    assert_eq!(String::deserialize(&mut Cursor::new(data)), Err(SerializationError::InvalidUtf8));
    let data: &[u8] = &[0x02, 0xc3, 0xa9, 0x00];
    let s = String::deserialize(&mut Cursor::new(data)).unwrap();
    assert_eq!(s, "\u{e9}");
}

#[test]
fn vec_negative_length_is_rejected() {
    let data: &[u8] = &[0xfe, 0xff, 0xff, 0xff, 0x0f];
    assert_eq!(Vec::<u8>::deserialize(&mut Cursor::new(data)), Err(SerializationError::InvalidLength(-2)));
}

#[test]
fn vec_element_error_restores_cursor() {
    let data: &[u8] = &[0x02, 0x00, 0x00, 0x00, 0x01, 0x00];
    let mut cursor = Cursor::new(data);
    assert_eq!(Vec::<i32>::deserialize(&mut cursor), Err(SerializationError::UnexpectedEof));
    assert_eq!(cursor.position(), 0);
}

#[test]
fn raw_bytes_deserialize_takes_the_rest() {
    let data: &[u8] = &[1, 2, 3];
    let mut cursor = Cursor::new(data);
    cursor.advance(1);
    let rb = RawBytes::deserialize(&mut cursor).unwrap();
    assert_eq!(rb.0, vec![2, 3]);
    assert_eq!(cursor.position(), 3);
}

#[test]
fn fixed_point_and_flags_encode_as_i32() {
    let mut buf = Vec::new();
    FixedPoint5(112).serialize(&mut buf).unwrap();
    TeleportFlags::all_relative().serialize(&mut buf).unwrap();
    assert_eq!(buf, &[0, 0, 0, 112, 0, 0, 0, 0x1f]);
    let mut cursor = Cursor::new(&buf);
    assert_eq!(FixedPoint5::deserialize(&mut cursor).unwrap(), FixedPoint5(112));
    assert_eq!(TeleportFlags::deserialize(&mut cursor).unwrap(), TeleportFlags(0x1f));
}

#[test]
fn nbt_bytes_are_kept() {
    let nbt = Nbt::from_bytes(vec![0x0a, 0x00]);
    assert_eq!(nbt.as_bytes(), &[0x0a, 0x00]);
}

#[test]
fn cfb8_known_answer() {
    let key = b"abcdefghijklmnop";
    let mut enc = Cfb8Encryptor::new(key).unwrap();
    assert_eq!(enc.encrypt(b"Hello").unwrap(), vec![0xe1, 0x33, 0x0a, 0xd0, 0x11]);
    let mut dec = Cfb8Decryptor::new(key).unwrap();
    assert_eq!(dec.decrypt(&[0xe1, 0x33]).unwrap(), b"He");
    assert_eq!(dec.decrypt(&[0x0a, 0xd0, 0x11]).unwrap(), b"llo");
}

#[test]
fn u128_is_big_endian() {
    let v: u128 = 0x0102_0304_0506_0708_090a_0b0c_0d0e_0f10;
    let mut buf = Vec::new();
    v.serialize(&mut buf).unwrap();
    assert_eq!(buf, (1u8..=16).collect::<Vec<u8>>());
    assert_eq!(u128::deserialize(&mut Cursor::new(&buf)).unwrap(), v);
    let short: &[u8] = &[0; 15];
    let mut cursor = Cursor::new(short);
    assert_eq!(u128::deserialize(&mut cursor), Err(SerializationError::UnexpectedEof));
    assert_eq!(cursor.position(), 0);
}

#[test]
fn cfb8_uneven_pieces_match_one_call() {
    let key: &[u8; 16] = b"0123456789abcdef";
    let message: Vec<u8> = (0..40u8).collect();
    let mut whole = Cfb8Encryptor::new(key).unwrap();
    let at_once = whole.encrypt(&message).unwrap();
    let mut pieces = Cfb8Encryptor::new(key).unwrap();
    let mut joined = pieces.encrypt(&message[..3]).unwrap();
    joined.extend(pieces.encrypt(&message[3..3]).unwrap());
    joined.extend(pieces.encrypt(&message[3..29]).unwrap());
    joined.extend(pieces.encrypt(&message[29..]).unwrap());
    assert_eq!(joined, at_once);

    let mut dec = Cfb8Decryptor::new(key).unwrap();
    let mut plain = dec.decrypt(&at_once[..17]).unwrap();
    plain.extend(dec.decrypt(&at_once[17..18]).unwrap());
    plain.extend(dec.decrypt(&at_once[18..]).unwrap());
    assert_eq!(plain, message);
}
