//! Splitting the bytes received on a connection into packet frames: the
//! length prefix, the optional compression layer, the optional decryption of
//! everything received, and the packet ID.
use vstd::prelude::*;
use bytes::{Buf, BytesMut};
use cfb8::cipher::generic_array::GenericArray;
use cfb8::cipher::{BlockDecryptMut, KeyIvInit};
use miniz_oxide::inflate::DecompressError;
use crate::leb::{
    leb_value, lemma_leb_len_below, lemma_leb_len_matches, lemma_leb_len_ranges,
    lemma_leb_scan_bounds, pow128,
};
use crate::var_int::{
    decode_error_of, lemma_varint_roundtrip, varint_decoding, varint_encoding, VarInt,
    VarIntDecodeError,
};
use crate::{CompressionThreshold, Decode, DecodeError, MAX_PACKET_SIZE};

verus! {

/// A growable byte buffer of the `bytes` crate.
#[verifier::external_type_specification]
#[verifier::external_body]
pub struct ExBytesMut(BytesMut);

/// The bytes a `BytesMut` holds, in order.
pub uninterp spec fn bytes_mut_contents(b: BytesMut) -> Seq<u8>;

/// `BytesMut::new`: an empty buffer.
#[verifier::external_body]
fn bytes_new() -> (b: BytesMut)
    ensures
        bytes_mut_contents(b) == Seq::<u8>::empty(),
{
    BytesMut::new()
}

/// `BytesMut::len`: the number of bytes held.
#[verifier::external_body]
fn bytes_len(b: &BytesMut) -> (n: usize)
    ensures
        n == bytes_mut_contents(*b).len(),
{
    b.len()
}

/// The number of bytes `b` holds.
pub fn buffer_len(b: &BytesMut) -> (n: usize)
    ensures
        n == bytes_mut_contents(*b).len(),
{
    bytes_len(b)
}

/// Dereferencing a `BytesMut` to a slice: the bytes held.
#[verifier::external_body]
fn bytes_as_slice(b: &BytesMut) -> (s: &[u8])
    ensures
        s@ == bytes_mut_contents(*b),
{
    &b[..]
}

/// `Buf::advance` on a `BytesMut`: drops the first `cnt` bytes (it panics
/// when fewer are held).
#[verifier::external_body]
fn bytes_advance(b: &mut BytesMut, cnt: usize)
    requires
        cnt <= bytes_mut_contents(*old(b)).len(),
    ensures
        bytes_mut_contents(*final(b)) == bytes_mut_contents(*old(b)).skip(cnt as int),
{
    b.advance(cnt)
}

/// `BytesMut::split_to`: hands out the first `at` bytes and keeps the rest
/// (it panics when fewer than `at` are held).
#[verifier::external_body]
fn bytes_split_to(b: &mut BytesMut, at: usize) -> (head: BytesMut)
    requires
        at <= bytes_mut_contents(*old(b)).len(),
    ensures
        bytes_mut_contents(head) == bytes_mut_contents(*old(b)).take(at as int),
        bytes_mut_contents(*final(b)) == bytes_mut_contents(*old(b)).skip(at as int),
{
    b.split_to(at)
}

/// `BytesMut::split`: hands out everything held and keeps nothing.
#[verifier::external_body]
fn bytes_split(b: &mut BytesMut) -> (all: BytesMut)
    ensures
        bytes_mut_contents(all) == bytes_mut_contents(*old(b)),
        bytes_mut_contents(*final(b)) == Seq::<u8>::empty(),
{
    b.split()
}

/// `BytesMut::split_off`: keeps the first `at` bytes and hands out the rest
/// (it panics when `at` exceeds the capacity, which is at least the length).
#[verifier::external_body]
fn bytes_split_off(b: &mut BytesMut, at: usize) -> (tail: BytesMut)
    requires
        at <= bytes_mut_contents(*old(b)).len(),
    ensures
        bytes_mut_contents(tail) == bytes_mut_contents(*old(b)).skip(at as int),
        bytes_mut_contents(*final(b)) == bytes_mut_contents(*old(b)).take(at as int),
{
    b.split_off(at)
}

/// `BytesMut::extend_from_slice`: appends the bytes of `s`.
#[verifier::external_body]
fn bytes_extend_from_slice(b: &mut BytesMut, s: &[u8])
    requires
        bytes_mut_contents(*old(b)).len() + s@.len() <= isize::MAX,
    ensures
        bytes_mut_contents(*final(b)) == bytes_mut_contents(*old(b)) + s@,
{
    b.extend_from_slice(s)
}

/// `BytesMut::unsplit`: appends the bytes of `other`.
#[verifier::external_body]
fn bytes_unsplit(b: &mut BytesMut, other: BytesMut)
    requires
        bytes_mut_contents(*old(b)).len() + bytes_mut_contents(other).len() <= isize::MAX,
    ensures
        bytes_mut_contents(*final(b)) == bytes_mut_contents(*old(b)) + bytes_mut_contents(other),
{
    b.unsplit(other)
}

/// `BytesMut::reserve`: makes room for more bytes without changing the ones
/// held (it panics when the new capacity overflows).
#[verifier::external_body]
fn bytes_reserve(b: &mut BytesMut, additional: usize)
    requires
        bytes_mut_contents(*old(b)).len() + additional <= isize::MAX,
    ensures
        bytes_mut_contents(*final(b)) == bytes_mut_contents(*old(b)),
{
    b.reserve(additional)
}

/// A decryptor for AES-128 in CFB-8 mode: it turns the encrypted bytes of a
/// connection back into plaintext, one byte at a time, and its output
/// depends on the key and on every byte it has decrypted before
/// (`cipher_state`).
#[verifier::external_body]
pub struct Cipher {
    inner: cfb8::Decryptor<aes::Aes128>,
}

/// What a decryptor's output depends on: the key it was made with (also its
/// IV) and the ciphertext bytes it has decrypted so far, in order.
pub uninterp spec fn cipher_state(c: Cipher) -> (Seq<u8>, Seq<u8>);

/// The plaintext byte that AES-128 in CFB-8 mode, with `key` as both key and
/// IV, gives for the last byte of the ciphertext stream `received`.
pub uninterp spec fn cfb8_plain_byte(key: Seq<u8>, received: Seq<u8>) -> u8;

/// The plaintext of the ciphertext `data` when the ciphertext `before` has
/// already gone through a CFB-8 decryptor with key and IV `key`.
pub open spec fn cfb8_plaintext(key: Seq<u8>, before: Seq<u8>, data: Seq<u8>) -> Seq<u8> {
    Seq::new(data.len(), |i: int| cfb8_plain_byte(key, before + data.take(i + 1)))
}

/// Decrypting a stream in two pieces, the second after the first, gives the
/// same bytes as decrypting it at once: how received bytes are split into
/// calls does not change what they decrypt to.
pub proof fn lemma_cfb8_plaintext_split(key: Seq<u8>, before: Seq<u8>, x: Seq<u8>, y: Seq<u8>)
    ensures
        cfb8_plaintext(key, before, x + y) == cfb8_plaintext(key, before, x) + cfb8_plaintext(
            key,
            before + x,
            y,
        ),
{
    let whole = cfb8_plaintext(key, before, x + y);
    let parts = cfb8_plaintext(key, before, x) + cfb8_plaintext(key, before + x, y);
    assert forall|i: int| 0 <= i < whole.len() implies whole[i] == parts[i] by {
        if i < x.len() {
            assert((x + y).take(i + 1) =~= x.take(i + 1));
        } else {
            assert(before + (x + y).take(i + 1) =~= (before + x) + y.take(i - x.len() + 1));
        }
    }
    assert(whole =~= parts);
}

/// `KeyIvInit::new_from_slices` with the key as both key and IV; a 16-byte
/// key and IV always have the lengths AES-128 in CFB-8 mode takes. The new
/// decryptor holds `key` and has decrypted nothing yet.
#[verifier::external_body]
fn new_cipher(key: &[u8; 16]) -> (c: Cipher)
    ensures
        cipher_state(c) == (key@, Seq::<u8>::empty()),
{
    Cipher { inner: cfb8::Decryptor::<aes::Aes128>::new_from_slices(key, key).expect("invalid key") }
}

/// `BlockDecryptMut::decrypt_block_mut` on one block of the CFB-8 decryptor,
/// whose blocks are one byte long. The byte that comes out is the CFB-8
/// plaintext of `byte` after every ciphertext byte decrypted before, under
/// the decryptor's key; `byte` joins those bytes. How AES computes it is not
/// stated here: it is named by `cfb8_plain_byte`.
#[verifier::external_body]
fn decrypt_block(cipher: &mut Cipher, byte: u8) -> (plain: u8)
    ensures
        cipher_state(*final(cipher)).0 == cipher_state(*old(cipher)).0,
        cipher_state(*final(cipher)).1 == cipher_state(*old(cipher)).1.push(byte),
        plain == cfb8_plain_byte(cipher_state(*old(cipher)).0, cipher_state(*old(cipher)).1.push(byte)),
{
    let mut block = GenericArray::from([byte]);
    cipher.inner.decrypt_block_mut(&mut block);
    block[0]
}

/// The error of a failed zlib decompression.
#[verifier::external_type_specification]
#[verifier::external_body]
pub struct ExDecompressError(DecompressError);

/// The data that zlib-compressed `data` decompresses to, if it is a valid
/// zlib stream.
pub uninterp spec fn zlib_decompressed(data: Seq<u8>) -> Option<Seq<u8>>;

/// `miniz_oxide::inflate::decompress_to_vec_zlib`: the decompressed data, or
/// an error when `data` is not a valid zlib stream.
#[verifier::external_body]
fn decompress_zlib(data: &[u8]) -> (res: Result<Vec<u8>, DecompressError>)
    ensures
        match res {
            Ok(v) => zlib_decompressed(data@) == Some(v@),
            Err(_) => zlib_decompressed(data@) is None,
        },
{
    miniz_oxide::inflate::decompress_to_vec_zlib(data)
}

/// Why the received bytes do not make a valid packet.
#[derive(Clone, Copy, PartialEq, Eq, Debug)]
pub enum PacketDecodeError {
    /// The length prefix runs on past five bytes.
    PacketLengthTooLarge,
    /// The length prefix is negative or above `MAX_PACKET_SIZE`.
    PacketLengthOutOfBounds(i32),
    /// The length of the decompressed data could not be read.
    DataLength(DecodeError),
    /// The length of the decompressed data is negative or not below
    /// `MAX_PACKET_SIZE`.
    DataLengthOutOfBounds(i32),
    /// Compressed data whose decompressed length does not exceed the
    /// compression threshold.
    DataLengthNotAboveThreshold { data_len: i32, threshold: i32 },
    /// The compressed data is not a valid zlib stream.
    Decompress,
    /// The compressed data does not decompress to the announced length.
    DecompressedLengthMismatch,
    /// Uncompressed data longer than the compression threshold.
    UncompressedTooLong { len: usize, threshold: i32 },
    /// The packet ID could not be read.
    PacketId(DecodeError),
    /// The packet ID is not the one of the packet type asked for.
    IdMismatch { expected: i32, got: i32 },
    /// The packet body could not be read as the packet type asked for.
    Body(DecodeError),
    /// Bytes of the body were left over after reading the packet.
    MissedBytes(usize),
}

/// The bytes of an optional vector.
pub open spec fn bytes_view(o: Option<Vec<u8>>) -> Option<Seq<u8>> {
    match o {
        Some(v) => Some(v@),
        None => None,
    }
}

/// Checks decompressed data against the length its frame announced.
pub open spec fn inflated_outcome(data_len: i32, inflated: Option<Seq<u8>>) -> Result<
    Seq<u8>,
    PacketDecodeError,
> {
    match inflated {
        None => Err(PacketDecodeError::Decompress),
        Some(z) => if z.len() == data_len {
            Ok(z)
        } else {
            Err(PacketDecodeError::DecompressedLengthMismatch)
        },
    }
}

/// The frame layer of the received bytes `buf` under compression threshold
/// `t`: `None` while a whole frame has not arrived yet, an error, or the
/// frame's data and what stays in the buffer after it.
pub open spec fn frame_split(buf: Seq<u8>, t: i32) -> Option<
    Result<(Seq<u8>, Seq<u8>), PacketDecodeError>,
> {
    let (len_res, c) = varint_decoding(buf);
    match len_res {
        Err(VarIntDecodeError::Incomplete) => None,
        Err(VarIntDecodeError::TooLarge) => Some(Err(PacketDecodeError::PacketLengthTooLarge)),
        Ok(plen) => if !(0 <= plen <= MAX_PACKET_SIZE) {
            Some(Err(PacketDecodeError::PacketLengthOutOfBounds(plen)))
        } else if buf.len() - c < plen {
            None
        } else {
            let pll = varint_encoding(plen).len();
            if t >= 0 {
                let body = buf.skip(c as int).take(plen as int);
                let (dres, d) = varint_decoding(body);
                match dres {
                    Err(e) => Some(Err(PacketDecodeError::DataLength(decode_error_of(e)))),
                    Ok(dl) => if !(0 <= dl < MAX_PACKET_SIZE) {
                        Some(Err(PacketDecodeError::DataLengthOutOfBounds(dl)))
                    } else if dl > 0 {
                        if !(dl > t) {
                            Some(
                                Err(
                                    PacketDecodeError::DataLengthNotAboveThreshold {
                                        data_len: dl,
                                        threshold: t,
                                    },
                                ),
                            )
                        } else {
                            match inflated_outcome(dl, zlib_decompressed(body.skip(d as int))) {
                                Err(e) => Some(Err(e)),
                                Ok(z) => Some(Ok((z, buf.skip(pll + plen as int)))),
                            }
                        }
                    } else {
                        let rem = (plen - d) as nat;
                        if rem > t {
                            Some(
                                Err(
                                    PacketDecodeError::UncompressedTooLong {
                                        len: rem as usize,
                                        threshold: t,
                                    },
                                ),
                            )
                        } else {
                            Some(Ok((buf.skip(pll + 1int).take(rem as int), buf.skip(pll + 1int + rem))))
                        }
                    },
                }
            } else {
                Some(Ok((buf.skip(pll as int).take(plen as int), buf.skip(pll + plen as int))))
            }
        },
    }
}

/// What taking the next packet out of the received bytes `buf` under
/// compression threshold `t` gives: nothing yet, a packet ID with the body
/// after it, or an error; and the bytes that stay buffered.
pub open spec fn next_packet(buf: Seq<u8>, t: i32) -> (
    Result<Option<(i32, Seq<u8>)>, PacketDecodeError>,
    Seq<u8>,
) {
    match frame_split(buf, t) {
        None => (Ok(None), buf),
        Some(Err(e)) => (Err(e), buf),
        Some(Ok((data, rest))) => {
            let (id_res, k) = varint_decoding(data);
            match id_res {
                Ok(id) => (Ok(Some((id, data.skip(k as int)))), rest),
                Err(e) => (Err(PacketDecodeError::PacketId(decode_error_of(e))), rest),
            }
        },
    }
}

/// Decompressed data is accepted exactly when it is as long as the frame
/// announced, and then unchanged: any other length is a length mismatch,
/// and data that does not decompress is a decompression error.
pub proof fn lemma_inflated_exact_length(data_len: i32, inflated: Option<Seq<u8>>)
    ensures
        inflated is None ==> inflated_outcome(data_len, inflated) == Err::<Seq<u8>, PacketDecodeError>(
            PacketDecodeError::Decompress,
        ),
        inflated matches Some(z) ==> (inflated_outcome(data_len, inflated) is Ok <==> z.len()
            == data_len),
        inflated matches Some(z) && z.len() != data_len ==> inflated_outcome(data_len, inflated)
            == Err::<Seq<u8>, PacketDecodeError>(PacketDecodeError::DecompressedLengthMismatch),
        inflated_outcome(data_len, inflated) matches Ok(w) ==> inflated == Some(w),
{
}

/// Checks the result of decompressing a frame's data against the length the
/// frame announced: the data when it decompressed to exactly that many
/// bytes.
pub fn accept_inflated(data_len: i32, inflated: Option<Vec<u8>>) -> (res: Result<
    Vec<u8>,
    PacketDecodeError,
>)
    ensures
        match (res, inflated_outcome(data_len, bytes_view(inflated))) {
            (Ok(v), Ok(z)) => v@ == z,
            (Err(e), Err(f)) => e == f,
            _ => false,
        },
        inflated is None ==> res == Err::<Vec<u8>, PacketDecodeError>(PacketDecodeError::Decompress),
        inflated matches Some(v) ==> (res is Ok <==> v@.len() == data_len),
        inflated matches Some(v) && v@.len() != data_len ==> res == Err::<Vec<u8>, PacketDecodeError>(
            PacketDecodeError::DecompressedLengthMismatch,
        ),
        res matches Ok(w) ==> inflated matches Some(v) && w@ == v@,
{
    proof {
        lemma_inflated_exact_length(data_len, bytes_view(inflated));
    }
    match inflated {
        None => Err(PacketDecodeError::Decompress),
        Some(v) => {
            if v.len() as u64 == data_len as u64 && data_len >= 0 {
                Ok(v)
            } else {
                Err(PacketDecodeError::DecompressedLengthMismatch)
            }
        },
    }
}

/// A packet whose frame has been taken apart: its ID and the bytes after it.
#[derive(Debug)]
pub struct PacketFrame {
    /// The ID of the decoded packet.
    pub id: i32,
    /// The contents of the packet after the leading `VarInt` ID.
    pub body: BytesMut,
}

/// Splits the bytes received on a connection into packet frames.
pub struct PacketDecoder {
    buf: BytesMut,
    decompress_buf: BytesMut,
    threshold: CompressionThreshold,
    cipher: Option<Cipher>,
}

/// Decrypts `bytes` in place, one cipher block (one byte) at a time: they
/// become their CFB-8 plaintext after the bytes the cipher has already
/// decrypted, and the cipher moves past them.
fn decrypt_bytes(cipher: &mut Cipher, bytes: &mut Vec<u8>)
    ensures
        final(bytes)@.len() == old(bytes)@.len(),
        final(bytes)@ == cfb8_plaintext(
            cipher_state(*old(cipher)).0,
            cipher_state(*old(cipher)).1,
            old(bytes)@,
        ),
        cipher_state(*final(cipher)).0 == cipher_state(*old(cipher)).0,
        cipher_state(*final(cipher)).1 == cipher_state(*old(cipher)).1 + old(bytes)@,
{
    let ghost key = cipher_state(*cipher).0;
    let ghost before = cipher_state(*cipher).1;
    let ghost data = bytes@;
    let mut i: usize = 0;
    while i < bytes.len()
        invariant
            i <= bytes.len(),
            bytes@.len() == data.len(),
            cipher_state(*cipher).0 == key,
            cipher_state(*cipher).1 == before + data.take(i as int),
            forall|j: int| 0 <= j < i ==> bytes@[j] == cfb8_plain_byte(key, before + data.take(j + 1)),
            forall|j: int| i <= j < data.len() ==> bytes@[j] == data[j],
        decreases bytes.len() - i,
    {
        let b = decrypt_block(cipher, bytes[i]);
        proof {
            assert(data.take(i as int).push(data[i as int]) =~= data.take(i as int + 1));
            assert((before + data.take(i as int)).push(data[i as int]) =~= before + data.take(
                i as int + 1,
            ));
        }
        bytes.set(i, b);
        i = i + 1;
    }
    proof {
        assert(data.take(i as int) =~= data);
        assert(bytes@ =~= cfb8_plaintext(key, before, data));
    }
}

/// A copy of the bytes held by `b`.
fn bytes_to_vec(b: &BytesMut) -> (v: Vec<u8>)
    ensures
        v@ == bytes_mut_contents(*b),
{
    let s = bytes_as_slice(b);
    let mut v: Vec<u8> = Vec::new();
    let mut i: usize = 0;
    while i < s.len()
        invariant
            i <= s.len(),
            v@ == s@.take(i as int),
        decreases s.len() - i,
    {
        v.push(s[i]);
        proof {
            assert(s@.take(i as int + 1) =~= s@.take(i as int).push(s@[i as int]));
        }
        i = i + 1;
    }
    proof {
        assert(s@.take(i as int) =~= s@);
    }
    v
}

impl PacketDecoder {
    /// The received bytes not yet taken out as packets, after decryption.
    pub closed spec fn buffered(&self) -> Seq<u8> {
        bytes_mut_contents(self.buf)
    }

    /// The compression threshold in effect.
    pub closed spec fn threshold(&self) -> i32 {
        self.threshold.0
    }

    /// Whether received bytes are decrypted.
    pub closed spec fn encrypting(&self) -> bool {
        self.cipher is Some
    }

    /// The key received bytes are decrypted with (empty while encryption is
    /// off).
    pub closed spec fn cipher_key(&self) -> Seq<u8> {
        match self.cipher {
            Some(c) => cipher_state(c).0,
            None => Seq::empty(),
        }
    }

    /// Every encrypted byte the decryptor has gone through since encryption
    /// was turned on, in order (empty while encryption is off).
    pub closed spec fn ciphertext_seen(&self) -> Seq<u8> {
        match self.cipher {
            Some(c) => cipher_state(c).1,
            None => Seq::empty(),
        }
    }

    /// The internal state is consistent: the scratch buffer for
    /// decompression is empty between calls, and the received bytes fit in
    /// memory.
    pub closed spec fn wf(&self) -> bool {
        &&& bytes_mut_contents(self.decompress_buf).len() == 0
        &&& bytes_mut_contents(self.buf).len() <= isize::MAX
    }

    pub fn new() -> (d: Self)
        ensures
            d.wf(),
            d.buffered() == Seq::<u8>::empty(),
            d.threshold() == -1,
            !d.encrypting(),
    {
        PacketDecoder {
            buf: bytes_new(),
            decompress_buf: bytes_new(),
            threshold: CompressionThreshold(-1),
            cipher: None,
        }
    }

    /// Takes the next complete packet out of the received bytes: `Ok(None)`
    /// while its frame has not fully arrived, otherwise the packet's ID and
    /// body, with the frame removed from the buffer.
    pub fn try_next_packet(&mut self) -> (res: Result<Option<PacketFrame>, PacketDecodeError>)
        requires
            old(self).wf(),
        ensures
            final(self).wf(),
            final(self).threshold() == old(self).threshold(),
            final(self).encrypting() == old(self).encrypting(),
            final(self).cipher_key() == old(self).cipher_key(),
            final(self).ciphertext_seen() == old(self).ciphertext_seen(),
            final(self).buffered() == next_packet(old(self).buffered(), old(self).threshold()).1,
            match res {
                Ok(None) => next_packet(old(self).buffered(), old(self).threshold()).0 == Ok::<
                    Option<(i32, Seq<u8>)>,
                    PacketDecodeError,
                >(None),
                Ok(Some(f)) => next_packet(old(self).buffered(), old(self).threshold()).0 == Ok::<
                    Option<(i32, Seq<u8>)>,
                    PacketDecodeError,
                >(Some((f.id, bytes_mut_contents(f.body)))),
                Err(e) => next_packet(old(self).buffered(), old(self).threshold()).0 == Err::<
                    Option<(i32, Seq<u8>)>,
                    PacketDecodeError,
                >(e),
            },
    {
        let ghost buf = self.buffered();
        let ghost t = self.threshold.0;
        let mut r: &[u8] = bytes_as_slice(&self.buf);

        // Decode the packet length.
        let packet_len = match VarInt::decode_partial(&mut r) {
            Ok(len) => len,
            Err(VarIntDecodeError::Incomplete) => return Ok(None),
            Err(VarIntDecodeError::TooLarge) => return Err(PacketDecodeError::PacketLengthTooLarge),
        };
        let ghost c = varint_decoding(buf).1;
        proof {
            lemma_leb_scan_bounds(buf, 5);
        }

        if !(0 <= packet_len && packet_len <= MAX_PACKET_SIZE) {
            return Err(PacketDecodeError::PacketLengthOutOfBounds(packet_len));
        }

        if r.len() < packet_len as usize {
            return Ok(None);
        }

        let packet_len_len = VarInt(packet_len).written_size();
        proof {
            lemma_length_prefix_size(buf);
        }

        let mut data: BytesMut;

        if self.threshold.0 >= 0 {
            let (head, _) = r.split_at(packet_len as usize);
            r = head;
            let ghost body = r@;

            let data_len = match VarInt::decode(&mut r) {
                Ok(v) => v.0,
                Err(e) => return Err(PacketDecodeError::DataLength(e)),
            };
            let ghost d = varint_decoding(body).1;
            proof {
                lemma_leb_scan_bounds(body, 5);
            }

            if !(0 <= data_len && data_len < MAX_PACKET_SIZE) {
                return Err(PacketDecodeError::DataLengthOutOfBounds(data_len));
            }

            if data_len > 0 {
                if !(data_len > self.threshold.0) {
                    return Err(
                        PacketDecodeError::DataLengthNotAboveThreshold {
                            data_len,
                            threshold: self.threshold.0,
                        },
                    );
                }

                // Decompress the data.
                let inflated = match decompress_zlib(r) {
                    Ok(v) => Some(v),
                    Err(_) => None,
                };
                let decompressed_data = match accept_inflated(data_len, inflated) {
                    Ok(v) => v,
                    Err(e) => return Err(e),
                };

                let total_packet_len = packet_len_len + packet_len as usize;

                bytes_advance(&mut self.buf, total_packet_len);

                bytes_extend_from_slice(&mut self.decompress_buf, decompressed_data.as_slice());
                data = bytes_split(&mut self.decompress_buf);
            } else {
                if r.len() > self.threshold.0 as usize {
                    return Err(
                        PacketDecodeError::UncompressedTooLong {
                            len: r.len(),
                            threshold: self.threshold.0,
                        },
                    );
                }

                let remaining_len = r.len();

                bytes_advance(&mut self.buf, packet_len_len + 1);

                data = bytes_split_to(&mut self.buf, remaining_len);
            }
        } else {
            bytes_advance(&mut self.buf, packet_len_len);
            data = bytes_split_to(&mut self.buf, packet_len as usize);
        }

        // Decode the leading packet ID.
        let mut r: &[u8] = bytes_as_slice(&data);
        let packet_id = match VarInt::decode(&mut r) {
            Ok(v) => v.0,
            Err(e) => return Err(PacketDecodeError::PacketId(e)),
        };

        let consumed = bytes_len(&data) - r.len();
        bytes_advance(&mut data, consumed);

        Ok(Some(PacketFrame { id: packet_id, body: data }))
    }
}

impl PacketDecoder {
    pub fn compression(&self) -> (t: CompressionThreshold)
        ensures
            t.0 == self.threshold(),
    {
        self.threshold
    }

    pub fn set_compression(&mut self, threshold: CompressionThreshold)
        requires
            old(self).wf(),
        ensures
            final(self).wf(),
            final(self).threshold() == threshold.0,
            final(self).buffered() == old(self).buffered(),
            final(self).encrypting() == old(self).encrypting(),
            final(self).cipher_key() == old(self).cipher_key(),
            final(self).ciphertext_seen() == old(self).ciphertext_seen(),
    {
        self.threshold = threshold;
    }

    /// Turns on decryption with `key`, also decrypting the bytes already
    /// received. Encryption must not be on already.
    pub fn enable_encryption(&mut self, key: &[u8; 16])
        requires
            old(self).wf(),
            !old(self).encrypting(),
        ensures
            final(self).wf(),
            final(self).encrypting(),
            final(self).threshold() == old(self).threshold(),
            final(self).buffered() == cfb8_plaintext(key@, Seq::<u8>::empty(), old(self).buffered()),
            final(self).cipher_key() == key@,
            final(self).ciphertext_seen() == old(self).buffered(),
    {
        let mut cipher = new_cipher(key);

        // Don't forget to decrypt the data we already have.
        let received = bytes_split(&mut self.buf);
        let mut bytes = bytes_to_vec(&received);
        decrypt_bytes(&mut cipher, &mut bytes);
        bytes_extend_from_slice(&mut self.buf, bytes.as_slice());

        self.cipher = Some(cipher);
    }

    /// Appends received bytes, decrypting them when encryption is on.
    pub fn queue_bytes(&mut self, bytes: BytesMut)
        requires
            old(self).wf(),
            old(self).buffered().len() + bytes_mut_contents(bytes).len() <= isize::MAX,
        ensures
            final(self).wf(),
            final(self).threshold() == old(self).threshold(),
            final(self).encrypting() == old(self).encrypting(),
            final(self).cipher_key() == old(self).cipher_key(),
            old(self).encrypting() ==> final(self).ciphertext_seen() == old(self).ciphertext_seen()
                + bytes_mut_contents(bytes),
            !old(self).encrypting() ==> final(self).ciphertext_seen() == old(self).ciphertext_seen(),
            old(self).encrypting() ==> final(self).buffered() == old(self).buffered() + cfb8_plaintext(
                old(self).cipher_key(),
                old(self).ciphertext_seen(),
                bytes_mut_contents(bytes),
            ),
            !old(self).encrypting() ==> final(self).buffered() == old(self).buffered()
                + bytes_mut_contents(bytes),
    {
        match &mut self.cipher {
            Some(cipher) => {
                let mut plain = bytes_to_vec(&bytes);
                decrypt_bytes(cipher, &mut plain);
                bytes_extend_from_slice(&mut self.buf, plain.as_slice());
            },
            None => {
                bytes_unsplit(&mut self.buf, bytes);
            },
        }
    }

    /// Appends received bytes, decrypting them when encryption is on.
    pub fn queue_slice(&mut self, bytes: &[u8])
        requires
            old(self).wf(),
            old(self).buffered().len() + bytes@.len() <= isize::MAX,
        ensures
            final(self).wf(),
            final(self).threshold() == old(self).threshold(),
            final(self).encrypting() == old(self).encrypting(),
            final(self).cipher_key() == old(self).cipher_key(),
            old(self).encrypting() ==> final(self).ciphertext_seen() == old(self).ciphertext_seen()
                + bytes@,
            !old(self).encrypting() ==> final(self).ciphertext_seen() == old(self).ciphertext_seen(),
            old(self).encrypting() ==> final(self).buffered() == old(self).buffered() + cfb8_plaintext(
                old(self).cipher_key(),
                old(self).ciphertext_seen(),
                bytes@,
            ),
            !old(self).encrypting() ==> final(self).buffered() == old(self).buffered() + bytes@,
    {
        match &mut self.cipher {
            Some(cipher) => {
                let mut plain: Vec<u8> = Vec::new();
                plain.extend_from_slice(bytes);
                proof {
                    assert(plain@ =~= bytes@);
                }
                decrypt_bytes(cipher, &mut plain);
                bytes_extend_from_slice(&mut self.buf, plain.as_slice());
            },
            None => {
                bytes_extend_from_slice(&mut self.buf, bytes);
            },
        }
    }

    /// Hands out the unused capacity of the receive buffer as an empty
    /// buffer to read into; the received bytes stay.
    pub fn take_capacity(&mut self) -> (b: BytesMut)
        requires
            old(self).wf(),
        ensures
            final(self).wf(),
            bytes_mut_contents(b) == Seq::<u8>::empty(),
            final(self).buffered() == old(self).buffered(),
            final(self).threshold() == old(self).threshold(),
            final(self).encrypting() == old(self).encrypting(),
            final(self).cipher_key() == old(self).cipher_key(),
            final(self).ciphertext_seen() == old(self).ciphertext_seen(),
    {
        let len = bytes_len(&self.buf);
        let b = bytes_split_off(&mut self.buf, len);
        proof {
            assert(self.buffered() =~= old(self).buffered());
        }
        b
    }

    /// Makes room for `additional` more received bytes.
    pub fn reserve(&mut self, additional: usize)
        requires
            old(self).wf(),
            old(self).buffered().len() + additional <= isize::MAX,
        ensures
            final(self).wf(),
            final(self).buffered() == old(self).buffered(),
            final(self).threshold() == old(self).threshold(),
            final(self).encrypting() == old(self).encrypting(),
            final(self).cipher_key() == old(self).cipher_key(),
            final(self).ciphertext_seen() == old(self).ciphertext_seen(),
    {
        bytes_reserve(&mut self.buf, additional);
    }
}

impl Default for PacketDecoder {
    fn default() -> (d: Self)
        ensures
            d.wf(),
            d.buffered() == Seq::<u8>::empty(),
            d.threshold() == -1,
            !d.encrypting(),
    {
        PacketDecoder::new()
    }
}

/// A packet type: its ID and its name.
pub trait Packet {
    /// The ID of the packet type.
    const ID: i32;
    /// The name of the packet type.
    const NAME: &'static str;
}

impl PacketFrame {
    /// Attempts to decode this packet as type `P`. An error is returned if the
    /// packet ID does not match, the body of the packet failed to decode, or
    /// some input was missed.
    pub fn decode<P: Packet + Decode>(&self) -> (res: Result<P, PacketDecodeError>)
        ensures
            P::ID != self.id ==> res == Err::<P, PacketDecodeError>(
                PacketDecodeError::IdMismatch { expected: P::ID, got: self.id },
            ),
            P::ID == self.id ==> match P::decoding(bytes_mut_contents(self.body)) {
                (Err(e), _) => res == Err::<P, PacketDecodeError>(PacketDecodeError::Body(e)),
                (Ok(p), n) => if n == bytes_mut_contents(self.body).len() {
                    res == Ok::<P, PacketDecodeError>(p)
                } else {
                    res == Err::<P, PacketDecodeError>(
                        PacketDecodeError::MissedBytes(
                            (bytes_mut_contents(self.body).len() - n) as usize,
                        ),
                    )
                },
            },
    {
        if P::ID != self.id {
            return Err(PacketDecodeError::IdMismatch { expected: P::ID, got: self.id });
        }

        let mut r: &[u8] = bytes_as_slice(&self.body);

        let pkt = match P::decode(&mut r) {
            Ok(p) => p,
            Err(e) => return Err(PacketDecodeError::Body(e)),
        };

        if r.len() != 0 {
            return Err(PacketDecodeError::MissedBytes(r.len()));
        }

        Ok(pkt)
    }
}

/// The canonical size of a decoded length prefix never exceeds the bytes it
/// was read from.
proof fn lemma_length_prefix_size(buf: Seq<u8>)
    requires
        varint_decoding(buf).0 matches Ok(n) && n >= 0,
    ensures
        ({
            let n = varint_decoding(buf).0->Ok_0;
            varint_encoding(n).len() <= varint_decoding(buf).1
        }),
{
    let n = varint_decoding(buf).0->Ok_0;
    let c = varint_decoding(buf).1;
    lemma_leb_scan_bounds(buf, 5);
    let u = (n as u32) as nat;
    lemma_leb_len_matches(u);
    lemma_leb_len_ranges(u);
    if c < 5 {
        let v = leb_value(buf.take(c as int));
        lemma_leb_value_bound(buf.take(c as int));
        assert(buf.take(c as int).len() == c);
        assert(pow128(c) <= 0x1000_0000) by {
            reveal_with_fuel(pow128, 5);
        }
        assert(v % 0x1_0000_0000 == v);
        assert(0 <= n);
        assert(u == v) by {
            assert(((v as u32) as i32) == n);
            assert(v < 0x1000_0000);
            let vv = v as u32;
            assert(vv < 0x1000_0000 ==> (vv as i32) as u32 == vv) by (bit_vector);
        }
        lemma_leb_len_below(u, c);
    }
}

/// The value of `c` groups of seven bits is below `128^c`.
proof fn lemma_leb_value_bound(s: Seq<u8>)
    ensures
        leb_value(s) < pow128(s.len()),
    decreases s.len(),
{
    if s.len() > 0 {
        lemma_leb_value_bound(s.drop_first());
        let a = leb_value(s.drop_first());
        let p = pow128((s.len() - 1) as nat);
        let d = (s[0] % 128) as nat;
        assert(d + 128 * a < 128 * p) by (nonlinear_arith)
            requires
                d < 128,
                a < p,
        ;
    }
}

/// The payload of a packet: its ID followed by its body.
pub open spec fn packet_payload(id: i32, body: Seq<u8>) -> Seq<u8> {
    varint_encoding(id) + body
}

/// A frame: the length of `payload` followed by `payload`.
pub open spec fn frame(payload: Seq<u8>) -> Seq<u8> {
    varint_encoding(payload.len() as i32) + payload
}

/// Reading a frame's length prefix and stepping past it.
proof fn lemma_frame_prefix(payload: Seq<u8>, rest: Seq<u8>)
    requires
        payload.len() <= MAX_PACKET_SIZE,
    ensures
        ({
            let buf = frame(payload) + rest;
            let plen = payload.len() as i32;
            &&& varint_decoding(buf) == (Ok::<i32, VarIntDecodeError>(plen), varint_encoding(plen).len())
            &&& buf.skip(varint_encoding(plen).len() as int) == payload + rest
            &&& buf.skip(varint_encoding(plen).len() as int).take(payload.len() as int) == payload
            &&& buf.skip(varint_encoding(plen).len() + payload.len() as int) == rest
        }),
{
    let plen = payload.len() as i32;
    let buf = frame(payload) + rest;
    lemma_varint_roundtrip(plen, payload + rest);
    assert(buf =~= varint_encoding(plen) + (payload + rest));
    assert(buf.skip(varint_encoding(plen).len() as int) =~= payload + rest);
    assert((payload + rest).take(payload.len() as int) =~= payload);
    assert(buf.skip(varint_encoding(plen).len() + payload.len() as int) =~= rest);
}

/// A packet sent without compression comes out of a decoder that has
/// compression off, with whatever was received after it left buffered.
pub proof fn lemma_packet_roundtrip_uncompressed(id: i32, body: Seq<u8>, rest: Seq<u8>, t: i32)
    requires
        t < 0,
        packet_payload(id, body).len() <= MAX_PACKET_SIZE,
    ensures
        next_packet(frame(packet_payload(id, body)) + rest, t) == (
            Ok::<Option<(i32, Seq<u8>)>, PacketDecodeError>(Some((id, body))),
            rest,
        ),
{
    let payload = packet_payload(id, body);
    let buf = frame(payload) + rest;
    lemma_frame_prefix(payload, rest);
    lemma_varint_roundtrip(id, body);
    assert(varint_encoding(id) + body =~= payload);
    assert(payload.skip(varint_encoding(id).len() as int) =~= body);
    let plen = payload.len() as i32;
    assert(plen as int == payload.len());
    assert(frame_split(buf, t) == Some(Ok::<(Seq<u8>, Seq<u8>), PacketDecodeError>((payload, rest))));
}

/// With compression on, a packet sent uncompressed (a zero data length
/// followed by the payload, no longer than the threshold) comes out of the
/// decoder, with whatever was received after it left buffered.
pub proof fn lemma_packet_roundtrip_below_threshold(id: i32, body: Seq<u8>, rest: Seq<u8>, t: i32)
    requires
        0 <= t,
        packet_payload(id, body).len() <= t,
        packet_payload(id, body).len() + 1 <= MAX_PACKET_SIZE,
    ensures
        next_packet(frame(seq![0u8] + packet_payload(id, body)) + rest, t) == (
            Ok::<Option<(i32, Seq<u8>)>, PacketDecodeError>(Some((id, body))),
            rest,
        ),
{
    let payload = packet_payload(id, body);
    let framed = seq![0u8] + payload;
    let buf = frame(framed) + rest;
    let plen = framed.len() as i32;
    lemma_frame_prefix(framed, rest);
    lemma_varint_roundtrip(0, payload);
    assert(varint_encoding(0) =~= seq![0u8]) by {
        assert(((0i32) as u32) as nat == 0);
    }
    let pll = varint_encoding(plen).len();
    let body_bytes = buf.skip(pll as int).take(plen as int);
    assert(body_bytes =~= varint_encoding(0) + payload);
    assert(body_bytes.skip(1) =~= payload);
    assert(buf.skip(pll + 1int).take(payload.len() as int) =~= payload);
    assert(buf.skip(pll + 1int + payload.len()) =~= rest);
    lemma_varint_roundtrip(id, body);
    assert(varint_encoding(id) + body =~= payload);
    assert(payload.skip(varint_encoding(id).len() as int) =~= body);
    assert(varint_decoding(body_bytes) == (Ok::<i32, VarIntDecodeError>(0), 1nat));
    assert(plen as int == payload.len() + 1);
    assert(frame_split(buf, t) == Some(Ok::<(Seq<u8>, Seq<u8>), PacketDecodeError>((payload, rest))));
}

/// With compression on, a packet sent compressed (its data length, above the
/// threshold, followed by a zlib stream of the payload) comes out of the
/// decoder, with whatever was received after it left buffered.
pub proof fn lemma_packet_roundtrip_compressed(
    id: i32,
    body: Seq<u8>,
    z: Seq<u8>,
    rest: Seq<u8>,
    t: i32,
)
    requires
        0 <= t < packet_payload(id, body).len() < MAX_PACKET_SIZE,
        zlib_decompressed(z) == Some(packet_payload(id, body)),
        varint_encoding(packet_payload(id, body).len() as i32).len() + z.len() <= MAX_PACKET_SIZE,
    ensures
        next_packet(
            frame(varint_encoding(packet_payload(id, body).len() as i32) + z) + rest,
            t,
        ) == (Ok::<Option<(i32, Seq<u8>)>, PacketDecodeError>(Some((id, body))), rest),
{
    let payload = packet_payload(id, body);
    let dl = payload.len() as i32;
    let framed = varint_encoding(dl) + z;
    let buf = frame(framed) + rest;
    let plen = framed.len() as i32;
    lemma_frame_prefix(framed, rest);
    lemma_varint_roundtrip(dl, z);
    let pll = varint_encoding(plen).len();
    let body_bytes = buf.skip(pll as int).take(plen as int);
    assert(body_bytes =~= framed);
    assert(body_bytes.skip(varint_encoding(dl).len() as int) =~= z);
    lemma_varint_roundtrip(id, body);
    assert(varint_encoding(id) + body =~= payload);
    assert(payload.skip(varint_encoding(id).len() as int) =~= body);
    assert(dl as int == payload.len());
    assert(varint_decoding(body_bytes) == (Ok::<i32, VarIntDecodeError>(dl), varint_encoding(dl).len()));
    assert(inflated_outcome(dl, zlib_decompressed(z)) == Ok::<Seq<u8>, PacketDecodeError>(payload));
    assert(buf.skip(pll + plen as int) =~= rest);
    assert(frame_split(buf, t) == Some(Ok::<(Seq<u8>, Seq<u8>), PacketDecodeError>((payload, rest))));
}

/// A compressed frame whose zlib data does not decompress to exactly the
/// announced data length is refused: a length mismatch when it decompresses
/// to another length, a decompression error when it does not decompress;
/// the received bytes stay as they were.
pub proof fn lemma_compressed_length_mismatch(dl: i32, z: Seq<u8>, rest: Seq<u8>, t: i32)
    requires
        0 <= t < dl < MAX_PACKET_SIZE,
        varint_encoding(dl).len() + z.len() <= MAX_PACKET_SIZE,
        zlib_decompressed(z) matches Some(p) ==> p.len() != dl,
    ensures
        next_packet(frame(varint_encoding(dl) + z) + rest, t) == (
            Err::<Option<(i32, Seq<u8>)>, PacketDecodeError>(
                if zlib_decompressed(z) is None {
                    PacketDecodeError::Decompress
                } else {
                    PacketDecodeError::DecompressedLengthMismatch
                },
            ),
            frame(varint_encoding(dl) + z) + rest,
        ),
{
    let framed = varint_encoding(dl) + z;
    let buf = frame(framed) + rest;
    let plen = framed.len() as i32;
    lemma_frame_prefix(framed, rest);
    lemma_varint_roundtrip(dl, z);
    let pll = varint_encoding(plen).len();
    let body_bytes = buf.skip(pll as int).take(plen as int);
    assert(body_bytes =~= framed);
    assert(body_bytes.skip(varint_encoding(dl).len() as int) =~= z);
    assert(varint_decoding(body_bytes) == (Ok::<i32, VarIntDecodeError>(dl), varint_encoding(dl).len()));
    lemma_inflated_exact_length(dl, zlib_decompressed(z));
}

/// Until a whole frame has arrived the decoder waits: on any proper prefix
/// of a frame it yields nothing and keeps what it has.
pub proof fn lemma_partial_frame_waits(payload: Seq<u8>, k: nat, t: i32)
    requires
        payload.len() <= MAX_PACKET_SIZE,
        k < frame(payload).len(),
    ensures
        next_packet(frame(payload).take(k as int), t) == (
            Ok::<Option<(i32, Seq<u8>)>, PacketDecodeError>(None),
            frame(payload).take(k as int),
        ),
{
    let plen = payload.len() as i32;
    let enc = varint_encoding(plen);
    let p = frame(payload).take(k as int);
    lemma_varint_roundtrip(plen, payload);
    let u = (plen as u32) as nat;
    lemma_leb_len_matches(u);
    lemma_leb_len_ranges(u);
    crate::leb::lemma_leb128_bytes(u);
    if k < enc.len() {
        assert forall|j: int| 0 <= j < k && j < p.len() implies #[trigger] p[j] >= 128 by {
            assert(p[j] == enc[j]);
        }
        crate::leb::lemma_leb_scan_step(p, k, 5);
    } else {
        assert(p.take(enc.len() as int) =~= enc);
        lemma_varint_roundtrip(plen, p.skip(enc.len() as int));
        assert(enc + p.skip(enc.len() as int) =~= p);
    }
}

} // verus!
