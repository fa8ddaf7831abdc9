use uuid::Uuid;
use valence_protocol::nbt::compound::Compound;
use valence_protocol::other::{custom_decode_from_binary, custom_encode_to_binary};
use valence_protocol::var_int::VarInt;
use valence_protocol::{Decode, DecodeError, Encode};

#[test]
fn option_encoding() {
    let mut buf = vec![];
    Some(VarInt(300)).encode(&mut buf);
    assert_eq!(buf, vec![1, 0xac, 0x02]);
    let mut buf = vec![];
    None::<u16>.encode(&mut buf);
    assert_eq!(buf, vec![0]);
}

#[test]
fn option_decoding() {
    let mut r: &[u8] = &[1, 0xac, 0x02, 0, 7];
    assert_eq!(Option::<VarInt>::decode(&mut r), Ok(Some(VarInt(300))));
    assert_eq!(Option::<VarInt>::decode(&mut r), Ok(None));
    assert_eq!(r, &[7]);
    assert_eq!(Option::<u8>::decode(&mut r), Err(DecodeError::InvalidBool(7)));
    let mut r: &[u8] = &[1, 0x01];
    assert_eq!(Option::<u16>::decode(&mut r), Err(DecodeError::UnexpectedEnd));
}

#[test]
fn uuid_round_trip() {
    let u = Uuid::from_u128(0x0123_4567_89ab_cdef_fedc_ba98_7654_3210);
    let mut buf = vec![];
    u.encode(&mut buf);
    assert_eq!(
        buf,
        vec![
            0x01, 0x23, 0x45, 0x67, 0x89, 0xab, 0xcd, 0xef, 0xfe, 0xdc, 0xba, 0x98, 0x76, 0x54,
            0x32, 0x10
        ]
    );
    buf.push(5);
    let mut r = buf.as_slice();
    assert_eq!(Uuid::decode(&mut r), Ok(u));
    assert_eq!(r, &[5]);
}

#[test]
fn compound_codec() {
    let c: Compound<u8> = Compound::new();
    let mut buf = vec![3];
    custom_encode_to_binary(&c, &mut buf).unwrap();
    c.encode(&mut buf);
    assert_eq!(buf, vec![3]);

    let mut r: &[u8] = &[0, 9];
    let d: Compound<u8> = Compound::decode(&mut r).unwrap();
    assert!(d.is_empty());
    assert_eq!(r, &[9]);

    // Two records: key "ab" with value 1, key "c" with value 2.
    let data = [2, b'a', b'b', 1, 1, b'c', 2];
    let mut r: &[u8] = &data;
    let d: Compound<u8> = custom_decode_from_binary(&mut r).unwrap();
    assert!(d.is_empty());
    assert!(r.is_empty());

    let data = [1, 0xff, 1];
    let mut r: &[u8] = &data;
    assert_eq!(
        Compound::<u8>::decode(&mut r).err(),
        Some(DecodeError::InvalidKey)
    );
    assert_eq!(r, &[0xff, 1]);
}
