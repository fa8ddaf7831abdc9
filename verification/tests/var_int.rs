use rand::Rng;
use valence_protocol::var_int::{Read, VarInt, VarIntDecodeError};
use valence_protocol::{Decode, DecodeError, Encode};

#[test]
fn varint_written_size() {
    let test_cases = [
        (0, 1),
        (127, 1),
        (128, 2),
        (16383, 2),
        (16384, 3),
        (2097151, 3),
        (2097152, 4),
        (268435455, 4),
        (268435456, 5),
    ];

    for (value, expected_size) in test_cases.iter() {
        let varint = VarInt(*value);
        assert_eq!(varint.written_size(), *expected_size);
    }
}

#[test]
fn varint_round_trip() {
    let mut rng = rand::thread_rng();
    let mut buf = vec![];

    for n in (0..1_000_000).map(|_| rng.gen()).chain([0, i32::MIN, i32::MAX]) {
        VarInt(n).encode(&mut buf);

        let mut slice = buf.as_slice();
        assert!(slice.len() <= VarInt::MAX_SIZE);

        assert_eq!(n, VarInt::decode(&mut slice).unwrap().0);

        assert!(slice.is_empty());
        buf.clear();
    }
}

fn encode(n: i32) -> Vec<u8> {
    let mut buf = vec![];
    VarInt(n).encode(&mut buf);
    buf
}

#[test]
fn varint_encodings() {
    assert_eq!(encode(0), vec![0x00]);
    assert_eq!(encode(1), vec![0x01]);
    assert_eq!(encode(127), vec![0x7f]);
    assert_eq!(encode(128), vec![0x80, 0x01]);
    assert_eq!(encode(255), vec![0xff, 0x01]);
    assert_eq!(encode(300), vec![0xac, 0x02]);
    assert_eq!(encode(25565), vec![0xdd, 0xc7, 0x01]);
    assert_eq!(encode(2097151), vec![0xff, 0xff, 0x7f]);
    assert_eq!(encode(2147483647), vec![0xff, 0xff, 0xff, 0xff, 0x07]);
    assert_eq!(encode(-1), vec![0xff, 0xff, 0xff, 0xff, 0x0f]);
    assert_eq!(encode(i32::MIN), vec![0x80, 0x80, 0x80, 0x80, 0x08]);
}

#[test]
fn varint_encode_appends() {
    let mut buf = vec![9u8];
    VarInt(300).encode(&mut buf);
    assert_eq!(buf, vec![9, 0xac, 0x02]);
}

#[test]
fn varint_written_size_matches_encoding() {
    for n in [0, 1, 127, 128, 16383, 16384, 2097151, 2097152, 268435455, 268435456, -1, i32::MIN, i32::MAX] {
        assert_eq!(VarInt(n).written_size(), encode(n).len());
    }
    assert_eq!(VarInt(-1).written_size(), 5);
}

#[test]
fn varint_decode_leaves_rest() {
    let data = [0xac, 0x02, 0x07, 0x08];
    let mut r: &[u8] = &data;
    assert_eq!(VarInt::decode(&mut r), Ok(VarInt(300)));
    assert_eq!(r, &[0x07, 0x08]);
}

#[test]
fn varint_decode_incomplete() {
    let mut r: &[u8] = &[];
    assert_eq!(VarInt::decode(&mut r), Err(DecodeError::UnexpectedEnd));

    let data = [0x80, 0x80];
    let mut r: &[u8] = &data;
    assert_eq!(VarInt::decode(&mut r), Err(DecodeError::UnexpectedEnd));
    assert!(r.is_empty());
}

#[test]
fn varint_decode_too_large() {
    let data = [0x80, 0x80, 0x80, 0x80, 0x80, 0x01];
    let mut r: &[u8] = &data;
    assert_eq!(VarInt::decode(&mut r), Err(DecodeError::VarIntTooLarge));
    assert_eq!(r, &[0x01]);
}

#[test]
fn varint_decode_drops_high_bits() {
    // The fifth byte carries more than the four bits that fit in an `i32`.
    let data = [0xff, 0xff, 0xff, 0xff, 0x7f];
    let mut r: &[u8] = &data;
    assert_eq!(VarInt::decode(&mut r), Ok(VarInt(-1)));
}

#[test]
fn varint_decode_non_canonical() {
    let data = [0x80, 0x00];
    let mut r: &[u8] = &data;
    assert_eq!(VarInt::decode(&mut r), Ok(VarInt(0)));
    assert!(r.is_empty());
}

#[test]
fn varint_decode_partial_results() {
    let data = [0xdd, 0xc7, 0x01, 0x05];
    let mut r: &[u8] = &data;
    assert_eq!(VarInt::decode_partial(&mut r), Ok(25565));
    assert_eq!(r, &[0x05]);

    let data = [0xdd, 0xc7];
    let mut r: &[u8] = &data;
    assert_eq!(VarInt::decode_partial(&mut r), Err(VarIntDecodeError::Incomplete));

    let data = [0xff; 6];
    let mut r: &[u8] = &data;
    assert_eq!(VarInt::decode_partial(&mut r), Err(VarIntDecodeError::TooLarge));
    assert_eq!(r.len(), 1);
}

#[test]
fn varint_decode_error_messages() {
    assert_eq!(VarIntDecodeError::Incomplete.to_string(), "incomplete VarInt decode");
    assert_eq!(VarIntDecodeError::TooLarge.to_string(), "VarInt is too large");
}

#[test]
fn read_fixed_width() {
    let data = [0x01, 0x02, 0x03, 0x04, 0x05];
    let mut r: &[u8] = &data;
    assert_eq!(r.read_u8(), Ok(0x01));
    assert_eq!(r.read_u16(), Ok(0x0203));
    assert_eq!(r, &[0x04, 0x05]);
    assert_eq!(r.read_u32(), Err(VarIntDecodeError::Incomplete));
    assert_eq!(r, &[0x04, 0x05]);

    let data = [0xff, 0xfe, 0x80];
    let mut r: &[u8] = &data;
    assert_eq!(r.read_i16(), Ok(-2));
    assert_eq!(r.read_i8(), Ok(-128));
    assert_eq!(r.read_u8(), Err(VarIntDecodeError::Incomplete));

    let data = [0xff, 0xff, 0xff, 0xfe, 0, 0, 0, 1];
    let mut r: &[u8] = &data;
    assert_eq!(r.read_i32(), Ok(-2));
    let mut r: &[u8] = &data;
    assert_eq!(r.read_u64(), Ok(0xffff_fffe_0000_0001));
    let mut r: &[u8] = &data;
    assert_eq!(r.read_i64(), Ok(-0x1_ffff_ffff));

    let data: Vec<u8> = (1..=17).collect();
    let mut r: &[u8] = &data;
    assert_eq!(r.read_u128(), Ok(0x0102030405060708090a0b0c0d0e0f10));
    assert_eq!(r, &[17]);
    let data = [0xffu8; 16];
    let mut r: &[u8] = &data;
    assert_eq!(r.read_i128(), Ok(-1));
    let mut r: &[u8] = &data[..15];
    assert_eq!(r.read_u128(), Err(VarIntDecodeError::Incomplete));
    assert_eq!(r.len(), 15);
}
