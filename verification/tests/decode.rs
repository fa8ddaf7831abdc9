use bytes::BytesMut;
use cfb8::cipher::{AsyncStreamCipher, KeyIvInit};
use valence_protocol::decode::{accept_inflated, buffer_len, Packet, PacketDecodeError, PacketDecoder};
use valence_protocol::var_int::VarInt;
use valence_protocol::{CompressionThreshold, Decode, DecodeError, Encode};

fn varint(n: i32) -> Vec<u8> {
    let mut buf = vec![];
    VarInt(n).encode(&mut buf);
    buf
}

fn frame(payload: &[u8]) -> Vec<u8> {
    let mut buf = varint(payload.len() as i32);
    buf.extend_from_slice(payload);
    buf
}

fn payload(id: i32, body: &[u8]) -> Vec<u8> {
    let mut buf = varint(id);
    buf.extend_from_slice(body);
    buf
}

#[test]
fn uncompressed_packets() {
    let mut dec = PacketDecoder::new();
    let mut stream = frame(&payload(0x21, &[1, 2, 3]));
    stream.extend(frame(&payload(300, &[])));
    dec.queue_slice(&stream);

    let f = dec.try_next_packet().unwrap().unwrap();
    assert_eq!(f.id, 0x21);
    assert_eq!(&f.body[..], &[1, 2, 3]);

    let f = dec.try_next_packet().unwrap().unwrap();
    assert_eq!(f.id, 300);
    assert!(f.body.is_empty());

    assert!(dec.try_next_packet().unwrap().is_none());
}

#[test]
fn waits_for_whole_frame() {
    let full = frame(&payload(7, &[9; 200]));
    let mut dec = PacketDecoder::new();
    for (i, b) in full.iter().enumerate() {
        assert!(dec.try_next_packet().unwrap().is_none(), "byte {i}");
        dec.queue_slice(&[*b]);
    }
    let f = dec.try_next_packet().unwrap().unwrap();
    assert_eq!(f.id, 7);
    assert_eq!(f.body.len(), 200);
}

#[test]
fn queue_bytes_and_capacity() {
    let mut dec = PacketDecoder::default();
    dec.reserve(64);
    let spare = dec.take_capacity();
    assert!(spare.is_empty());
    dec.queue_bytes(BytesMut::from(&frame(&payload(1, &[5]))[..]));
    let f = dec.try_next_packet().unwrap().unwrap();
    assert_eq!((f.id, &f.body[..]), (1, &[5u8][..]));
}

#[test]
fn length_errors() {
    let mut dec = PacketDecoder::new();
    dec.queue_slice(&[0xff, 0xff, 0xff, 0xff, 0xff, 0x01]);
    assert_eq!(dec.try_next_packet().err(), Some(PacketDecodeError::PacketLengthTooLarge));

    let mut dec = PacketDecoder::new();
    dec.queue_slice(&varint(-1));
    assert_eq!(dec.try_next_packet().err(), Some(PacketDecodeError::PacketLengthOutOfBounds(-1)));

    let mut dec = PacketDecoder::new();
    dec.queue_slice(&varint(2097153));
    assert_eq!(
        dec.try_next_packet().err(),
        Some(PacketDecodeError::PacketLengthOutOfBounds(2097153))
    );
}

#[test]
fn empty_frame_has_no_id() {
    let mut dec = PacketDecoder::new();
    dec.queue_slice(&[0x00, 0x05]);
    assert_eq!(
        dec.try_next_packet().err(),
        Some(PacketDecodeError::PacketId(DecodeError::UnexpectedEnd))
    );
}

#[test]
fn compression_below_threshold() {
    let mut dec = PacketDecoder::new();
    dec.set_compression(CompressionThreshold(256));
    assert_eq!(dec.compression(), CompressionThreshold(256));
    let mut inner = vec![0];
    inner.extend(payload(0x10, &[4, 5, 6]));
    dec.queue_slice(&frame(&inner));
    let f = dec.try_next_packet().unwrap().unwrap();
    assert_eq!(f.id, 0x10);
    assert_eq!(&f.body[..], &[4, 5, 6]);
}

#[test]
fn compression_above_threshold() {
    let data = payload(0x22, &[0xab; 100]);
    let compressed = miniz_oxide::deflate::compress_to_vec_zlib(&data, 6);
    let mut inner = varint(data.len() as i32);
    inner.extend(&compressed);

    let mut dec = PacketDecoder::new();
    dec.set_compression(CompressionThreshold(64));
    let mut stream = frame(&inner);
    stream.push(0x99);
    dec.queue_slice(&stream);
    let f = dec.try_next_packet().unwrap().unwrap();
    assert_eq!(f.id, 0x22);
    assert_eq!(&f.body[..], &[0xab; 100][..]);
    assert!(dec.try_next_packet().unwrap().is_none());
}

#[test]
fn compression_errors() {
    // Data length not above the threshold.
    let mut dec = PacketDecoder::new();
    dec.set_compression(CompressionThreshold(256));
    let mut inner = varint(10);
    inner.extend([0u8; 4]);
    dec.queue_slice(&frame(&inner));
    assert_eq!(
        dec.try_next_packet().err(),
        Some(PacketDecodeError::DataLengthNotAboveThreshold { data_len: 10, threshold: 256 })
    );

    // Not a zlib stream.
    let mut dec = PacketDecoder::new();
    dec.set_compression(CompressionThreshold(4));
    let mut inner = varint(10);
    inner.extend([1u8, 2, 3]);
    dec.queue_slice(&frame(&inner));
    assert_eq!(dec.try_next_packet().err(), Some(PacketDecodeError::Decompress));

    // Wrong decompressed length.
    let mut dec = PacketDecoder::new();
    dec.set_compression(CompressionThreshold(4));
    let compressed = miniz_oxide::deflate::compress_to_vec_zlib(&[1u8; 20], 6);
    let mut inner = varint(21);
    inner.extend(&compressed);
    dec.queue_slice(&frame(&inner));
    assert_eq!(dec.try_next_packet().err(), Some(PacketDecodeError::DecompressedLengthMismatch));

    // Uncompressed data longer than the threshold.
    let mut dec = PacketDecoder::new();
    dec.set_compression(CompressionThreshold(2));
    let mut inner = vec![0];
    inner.extend(payload(1, &[1, 2, 3]));
    dec.queue_slice(&frame(&inner));
    assert_eq!(
        dec.try_next_packet().err(),
        Some(PacketDecodeError::UncompressedTooLong { len: 4, threshold: 2 })
    );

    // Data length out of bounds.
    let mut dec = PacketDecoder::new();
    dec.set_compression(CompressionThreshold(0));
    dec.queue_slice(&frame(&varint(-5)));
    assert_eq!(dec.try_next_packet().err(), Some(PacketDecodeError::DataLengthOutOfBounds(-5)));

    // Missing data length.
    let mut dec = PacketDecoder::new();
    dec.set_compression(CompressionThreshold(0));
    dec.queue_slice(&frame(&[0x80]));
    assert_eq!(
        dec.try_next_packet().err(),
        Some(PacketDecodeError::DataLength(DecodeError::UnexpectedEnd))
    );
}

#[test]
fn inflated_checks() {
    assert_eq!(accept_inflated(3, Some(vec![1, 2, 3])), Ok(vec![1, 2, 3]));
    assert_eq!(
        accept_inflated(4, Some(vec![1, 2, 3])),
        Err(PacketDecodeError::DecompressedLengthMismatch)
    );
    assert_eq!(accept_inflated(3, None), Err(PacketDecodeError::Decompress));
}

#[test]
fn encrypted_stream() {
    let key = [7u8; 16];
    let mut stream = frame(&payload(0x05, b"hello"));
    stream.extend(frame(&payload(0x06, b"world")));
    cfb8::Encryptor::<aes::Aes128>::new_from_slices(&key, &key)
        .unwrap()
        .encrypt(&mut stream);

    let mut dec = PacketDecoder::new();
    // Part of the stream arrives before encryption is turned on.
    dec.queue_slice(&stream[..4]);
    dec.enable_encryption(&key);
    dec.queue_bytes(BytesMut::from(&stream[4..10]));
    dec.queue_slice(&stream[10..]);

    let f = dec.try_next_packet().unwrap().unwrap();
    assert_eq!((f.id, &f.body[..]), (0x05, &b"hello"[..]));
    let f = dec.try_next_packet().unwrap().unwrap();
    assert_eq!((f.id, &f.body[..]), (0x06, &b"world"[..]));
}

#[derive(Debug, PartialEq)]
struct Ping(u64);

impl Packet for Ping {
    const ID: i32 = 0x1d;
    const NAME: &'static str = "Ping";
}

impl Decode for Ping {
    fn decode(r: &mut &[u8]) -> Result<Self, DecodeError> {
        u64::decode(r).map(Ping)
    }
}

#[test]
fn frame_decode() {
    let mut dec = PacketDecoder::new();
    let mut body = vec![];
    42u64.encode(&mut body);
    dec.queue_slice(&frame(&payload(0x1d, &body)));
    body.push(0);
    dec.queue_slice(&frame(&payload(0x1d, &body)));
    dec.queue_slice(&frame(&payload(0x1d, &[1, 2])));
    dec.queue_slice(&frame(&payload(0x1e, &[])));

    let f = dec.try_next_packet().unwrap().unwrap();
    assert_eq!(f.decode::<Ping>(), Ok(Ping(42)));
    let f = dec.try_next_packet().unwrap().unwrap();
    assert_eq!(f.decode::<Ping>(), Err(PacketDecodeError::MissedBytes(1)));
    let f = dec.try_next_packet().unwrap().unwrap();
    assert_eq!(f.decode::<Ping>(), Err(PacketDecodeError::Body(DecodeError::UnexpectedEnd)));
    let f = dec.try_next_packet().unwrap().unwrap();
    assert_eq!(
        f.decode::<Ping>(),
        Err(PacketDecodeError::IdMismatch { expected: 0x1d, got: 0x1e })
    );
}

#[test]
fn buffer_len_counts_bytes() {
    assert_eq!(buffer_len(&BytesMut::new()), 0);
    assert_eq!(buffer_len(&BytesMut::from(&b"abc"[..])), 3);
}

#[test]
fn enabling_encryption_decrypts_buffered_bytes() {
    let key = [3u8; 16];
    let mut stream = frame(&payload(0x01, b"abc"));
    cfb8::Encryptor::<aes::Aes128>::new_from_slices(&key, &key)
        .unwrap()
        .encrypt(&mut stream);

    // The whole encrypted frame arrives before encryption is turned on.
    let mut dec = PacketDecoder::new();
    dec.queue_slice(&stream);
    dec.enable_encryption(&key);
    let f = dec.try_next_packet().unwrap().unwrap();
    assert_eq!((f.id, &f.body[..]), (0x01, &b"abc"[..]));
    assert!(dec.try_next_packet().unwrap().is_none());
}
