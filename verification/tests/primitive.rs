use valence_protocol::primitive::{
    encode_bool_slice, encode_i8_slice, encode_slice, encode_u8_slice, VarIntDecodeError,
};
use valence_protocol::{Decode, DecodeError, Encode};

fn bytes_of<T: Encode>(v: T) -> Vec<u8> {
    let mut buf = vec![];
    v.encode(&mut buf);
    buf
}

#[test]
fn fixed_width_encodings() {
    assert_eq!(bytes_of(true), vec![1]);
    assert_eq!(bytes_of(false), vec![0]);
    assert_eq!(bytes_of(0xabu8), vec![0xab]);
    assert_eq!(bytes_of(-1i8), vec![0xff]);
    assert_eq!(bytes_of(0x0102u16), vec![0x01, 0x02]);
    assert_eq!(bytes_of(-2i16), vec![0xff, 0xfe]);
    assert_eq!(bytes_of(0x01020304u32), vec![1, 2, 3, 4]);
    assert_eq!(bytes_of(-2i32), vec![0xff, 0xff, 0xff, 0xfe]);
    assert_eq!(bytes_of(0x0102030405060708u64), vec![1, 2, 3, 4, 5, 6, 7, 8]);
    assert_eq!(bytes_of(i64::MIN), vec![0x80, 0, 0, 0, 0, 0, 0, 0]);
    assert_eq!(
        bytes_of(0x0102030405060708090a0b0c0d0e0f10u128),
        (1..=16).collect::<Vec<u8>>()
    );
}

fn round_trip<T: Encode + Decode + PartialEq + core::fmt::Debug + Copy>(v: T) {
    let mut buf = vec![];
    v.encode(&mut buf);
    buf.push(0x42);
    let mut r = buf.as_slice();
    assert_eq!(T::decode(&mut r), Ok(v));
    assert_eq!(r, &[0x42]);
}

#[test]
fn fixed_width_round_trips() {
    round_trip(true);
    round_trip(false);
    for v in [0u8, 1, 127, 128, 255] {
        round_trip(v);
    }
    for v in [i8::MIN, -1, 0, 1, i8::MAX] {
        round_trip(v);
    }
    for v in [0u16, 1, 0x8000, u16::MAX] {
        round_trip(v);
    }
    for v in [i16::MIN, -1, 0, i16::MAX] {
        round_trip(v);
    }
    for v in [0u32, 0xdead_beef, u32::MAX] {
        round_trip(v);
    }
    for v in [i32::MIN, -1, 0, i32::MAX] {
        round_trip(v);
    }
    for v in [0u64, 0x0123_4567_89ab_cdef, u64::MAX] {
        round_trip(v);
    }
    for v in [i64::MIN, -1, 0, i64::MAX] {
        round_trip(v);
    }
    for v in [0u128, 0x0123_4567_89ab_cdef_0123_4567_89ab_cdef, u128::MAX] {
        round_trip(v);
    }
}

#[test]
fn bool_decoding() {
    let mut r: &[u8] = &[1, 0];
    assert_eq!(bool::decode(&mut r), Ok(true));
    assert_eq!(bool::decode(&mut r), Ok(false));
    assert_eq!(bool::decode(&mut r), Err(DecodeError::UnexpectedEnd));
    let mut r: &[u8] = &[2, 9];
    assert_eq!(bool::decode(&mut r), Err(DecodeError::InvalidBool(2)));
    assert_eq!(r, &[9]);
}

#[test]
fn short_input() {
    let mut r: &[u8] = &[1, 2, 3];
    assert_eq!(u32::decode(&mut r), Err(DecodeError::UnexpectedEnd));
    assert_eq!(r, &[1, 2, 3]);
    assert_eq!(i64::decode(&mut r), Err(DecodeError::UnexpectedEnd));
    assert_eq!(u8::decode(&mut r), Ok(1));
    let mut r: &[u8] = &[];
    assert_eq!(i8::decode(&mut r), Err(DecodeError::UnexpectedEnd));
    // A `u128` that is cut short consumes what was left.
    let mut r: &[u8] = &[1, 2, 3];
    assert_eq!(u128::decode(&mut r), Err(DecodeError::UnexpectedEnd));
    assert!(r.is_empty());
}

#[test]
fn slices() {
    let mut buf = vec![];
    encode_bool_slice(&[true, false, true], &mut buf);
    assert_eq!(buf, vec![1, 0, 1]);
    let mut buf = vec![7];
    encode_u8_slice(&[1, 2, 3], &mut buf);
    assert_eq!(buf, vec![7, 1, 2, 3]);
    let mut buf = vec![];
    encode_i8_slice(&[-1, 2, -128], &mut buf);
    assert_eq!(buf, vec![0xff, 2, 0x80]);
    let mut buf = vec![];
    encode_slice(&[1u16, 0x0203], &mut buf);
    assert_eq!(buf, vec![0, 1, 2, 3]);
}

#[test]
fn decode_error_message() {
    let e = VarIntDecodeError::new("failed to decode VarInt");
    assert_eq!(e.to_string(), "VarIntDecodeError: failed to decode VarInt");
}
