use rand::{thread_rng, Rng};
use valence_protocol::var_long::VarLong;
use valence_protocol::{Decode, DecodeError, Encode};

#[test]
fn encode_decode() {
    let mut rng = thread_rng();
    let mut buf = vec![];

    for n in (0..1_000_000)
        .map(|_| rng.gen())
        .chain([0, i64::MIN, i64::MAX])
    {
        VarLong(n).encode(&mut buf);

        let mut slice = buf.as_slice();
        assert!(slice.len() <= VarLong::MAX_SIZE);

        assert_eq!(n, VarLong::decode(&mut slice).unwrap().0);
        assert!(slice.is_empty());
        buf.clear();
    }
}

fn encode(n: i64) -> Vec<u8> {
    let mut buf = vec![];
    VarLong(n).encode(&mut buf);
    buf
}

#[test]
fn varlong_encodings() {
    assert_eq!(encode(0), vec![0x00]);
    assert_eq!(encode(1), vec![0x01]);
    assert_eq!(encode(127), vec![0x7f]);
    assert_eq!(encode(128), vec![0x80, 0x01]);
    assert_eq!(encode(2147483647), vec![0xff, 0xff, 0xff, 0xff, 0x07]);
    assert_eq!(
        encode(i64::MAX),
        vec![0xff, 0xff, 0xff, 0xff, 0xff, 0xff, 0xff, 0xff, 0x7f]
    );
    assert_eq!(
        encode(-1),
        vec![0xff, 0xff, 0xff, 0xff, 0xff, 0xff, 0xff, 0xff, 0xff, 0x01]
    );
    assert_eq!(
        encode(i64::MIN),
        vec![0x80, 0x80, 0x80, 0x80, 0x80, 0x80, 0x80, 0x80, 0x80, 0x01]
    );
}

#[test]
fn varlong_written_size() {
    let cases = [
        (0i64, 1usize),
        (127, 1),
        (128, 2),
        (16383, 2),
        (16384, 3),
        (2147483647, 5),
        (34359738367, 5),
        (34359738368, 6),
        (i64::MAX, 9),
        (-1, 10),
        (i64::MIN, 10),
    ];
    for (n, size) in cases {
        assert_eq!(VarLong(n).written_size(), size);
        assert_eq!(encode(n).len(), size);
    }
}

#[test]
fn varlong_decode_errors() {
    let mut r: &[u8] = &[0x80, 0x80];
    assert_eq!(VarLong::decode(&mut r), Err(DecodeError::UnexpectedEnd));
    assert!(r.is_empty());

    let data = [0x80u8; 11];
    let mut r: &[u8] = &data;
    assert_eq!(VarLong::decode(&mut r), Err(DecodeError::VarIntTooLarge));
    assert_eq!(r.len(), 1);
}

#[test]
fn varlong_decode_leaves_rest() {
    let data = [0xac, 0x02, 0x63];
    let mut r: &[u8] = &data;
    assert_eq!(VarLong::decode(&mut r), Ok(VarLong(300)));
    assert_eq!(r, &[0x63]);
}
