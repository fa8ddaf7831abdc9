//! Encodings of booleans and fixed-width integers.
use vstd::prelude::*;
use vstd::string::StringExecFns;
use core::convert::Infallible;
use embedded_io::ReadExactError;
use crate::be::{
    be_bytes, be_value, fixed_read, lemma_be_roundtrip, lemma_be_value_first, lemma_pow256_facts,
    push_be,
};
use crate::var_int::Read;
use crate::{Decode, DecodeError, Encode};

verus! {

/// An error raised while decoding, with a fixed description.
#[derive(Debug)]
pub struct VarIntDecodeError {
    details: &'static str,
}

impl VarIntDecodeError {
    pub fn new(details: &'static str) -> (e: Self)
        ensures
            e.details() == details,
    {
        Self { details }
    }

    /// The description given at construction.
    pub closed spec fn details(&self) -> &'static str {
        self.details
    }

    /// The message: `VarIntDecodeError: ` followed by the description.
    pub fn to_string(&self) -> (s: String)
        ensures
            s@ == "VarIntDecodeError: "@ + self.details()@,
    {
        let prefix = "VarIntDecodeError: ".to_string();
        prefix.concat(self.details)
    }
}

/// The encoding of the elements of `s`, one after the other.
pub open spec fn encode_all<T: Encode>(s: Seq<T>) -> Seq<u8>
    decreases s.len(),
{
    if s.len() == 0 {
        Seq::empty()
    } else {
        encode_all(s.drop_last()) + s.last().encoding()
    }
}

/// Encodes each element of `slice` in turn.
pub fn encode_slice<T: Encode>(slice: &[T], w: &mut Vec<u8>)
    ensures
        final(w)@ == old(w)@ + encode_all(slice@),
{
    let mut i: usize = 0;
    proof {
        assert(slice@.take(0) =~= Seq::<T>::empty());
        assert(old(w)@ + encode_all(Seq::<T>::empty()) =~= old(w)@);
    }
    while i < slice.len()
        invariant
            i <= slice.len(),
            w@ == old(w)@ + encode_all(slice@.take(i as int)),
        decreases slice.len() - i,
    {
        slice[i].encode(w);
        proof {
            assert(slice@.take(i as int + 1).drop_last() =~= slice@.take(i as int));
            assert(old(w)@ + encode_all(slice@.take(i as int)) + slice@[i as int].encoding()
                =~= old(w)@ + encode_all(slice@.take(i as int + 1)));
        }
        i = i + 1;
    }
    proof {
        assert(slice@.take(i as int) =~= slice@);
    }
}

/// Reading a fixed-width integer of `n` bytes as a decoded value: the number
/// and `n` consumed bytes, or `UnexpectedEnd` with nothing consumed.
pub open spec fn fixed_decoding(s: Seq<u8>, n: nat) -> (Result<nat, DecodeError>, nat) {
    match fixed_read(s, n) {
        Some(v) => (Ok(v), n),
        None => (Err(DecodeError::UnexpectedEnd), 0),
    }
}

impl Encode for bool {
    open spec fn encoding(&self) -> Seq<u8> {
        seq![if *self { 1u8 } else { 0u8 }]
    }

    fn encode(&self, w: &mut Vec<u8>) {
        w.push(if *self { 1u8 } else { 0u8 });
    }
}

/// Encodes booleans as the bytes `0` and `1`.
pub fn encode_bool_slice(slice: &[bool], w: &mut Vec<u8>)
    ensures
        final(w)@ == old(w)@ + encode_all(slice@),
{
    encode_slice(slice, w)
}

impl Decode for bool {
    open spec fn decoding(input: Seq<u8>) -> (Result<bool, DecodeError>, nat) {
        if input.len() == 0 {
            (Err(DecodeError::UnexpectedEnd), 0)
        } else if input[0] <= 1 {
            (Ok(input[0] == 1), 1)
        } else {
            (Err(DecodeError::InvalidBool(input[0])), 1)
        }
    }

    fn decode(r: &mut &[u8]) -> (res: Result<bool, DecodeError>) {
        proof {
            if r@.len() > 0 {
                lemma_be_value_first(r@);
            }
        }
        let n = match r.read_u8() {
            Ok(n) => n,
            Err(_) => return Err(DecodeError::UnexpectedEnd),
        };
        if n > 1 {
            return Err(DecodeError::InvalidBool(n));
        }
        Ok(n == 1)
    }
}

impl Encode for u8 {
    open spec fn encoding(&self) -> Seq<u8> {
        seq![*self]
    }

    fn encode(&self, w: &mut Vec<u8>) {
        w.push(*self);
    }
}

/// Encodes bytes as themselves.
pub fn encode_u8_slice(slice: &[u8], w: &mut Vec<u8>)
    ensures
        final(w)@ == old(w)@ + slice@,
        encode_all(slice@) == slice@,
{
    proof {
        lemma_encode_all_bytes(slice@);
    }
    w.extend_from_slice(slice);
}

proof fn lemma_encode_all_bytes(s: Seq<u8>)
    ensures
        encode_all(s) == s,
    decreases s.len(),
{
    if s.len() > 0 {
        lemma_encode_all_bytes(s.drop_last());
        assert(s.drop_last() + seq![s.last()] =~= s);
    }
}

impl Decode for u8 {
    open spec fn decoding(input: Seq<u8>) -> (Result<u8, DecodeError>, nat) {
        let (res, n) = fixed_decoding(input, 1);
        (
            match res {
                Ok(v) => Ok(v as u8),
                Err(e) => Err(e),
            },
            n,
        )
    }

    fn decode(r: &mut &[u8]) -> (res: Result<u8, DecodeError>) {
        match r.read_u8() {
            Ok(v) => Ok(v),
            Err(_) => Err(DecodeError::UnexpectedEnd),
        }
    }
}

impl Encode for i8 {
    open spec fn encoding(&self) -> Seq<u8> {
        seq![*self as u8]
    }

    fn encode(&self, w: &mut Vec<u8>) {
        w.push(*self as u8);
    }
}

/// Encodes signed bytes as their two's complement bytes.
pub fn encode_i8_slice(slice: &[i8], w: &mut Vec<u8>)
    ensures
        final(w)@ == old(w)@ + encode_all(slice@),
{
    encode_slice(slice, w)
}

impl Decode for i8 {
    open spec fn decoding(input: Seq<u8>) -> (Result<i8, DecodeError>, nat) {
        let (res, n) = fixed_decoding(input, 1);
        (
            match res {
                Ok(v) => Ok((v as u8) as i8),
                Err(e) => Err(e),
            },
            n,
        )
    }

    fn decode(r: &mut &[u8]) -> (res: Result<i8, DecodeError>) {
        match r.read_i8() {
            Ok(v) => Ok(v),
            Err(_) => Err(DecodeError::UnexpectedEnd),
        }
    }
}

impl Encode for u16 {
    open spec fn encoding(&self) -> Seq<u8> {
        be_bytes(*self as nat, 2)
    }

    fn encode(&self, w: &mut Vec<u8>) {
        push_be(w, *self as u128, 2);
    }
}

impl Decode for u16 {
    open spec fn decoding(input: Seq<u8>) -> (Result<u16, DecodeError>, nat) {
        let (res, n) = fixed_decoding(input, 2);
        (
            match res {
                Ok(v) => Ok(v as u16),
                Err(e) => Err(e),
            },
            n,
        )
    }

    fn decode(r: &mut &[u8]) -> (res: Result<u16, DecodeError>) {
        match r.read_u16() {
            Ok(v) => Ok(v),
            Err(_) => Err(DecodeError::UnexpectedEnd),
        }
    }
}

impl Encode for i16 {
    open spec fn encoding(&self) -> Seq<u8> {
        be_bytes((*self as u16) as nat, 2)
    }

    fn encode(&self, w: &mut Vec<u8>) {
        push_be(w, (*self as u16) as u128, 2);
    }
}

impl Decode for i16 {
    open spec fn decoding(input: Seq<u8>) -> (Result<i16, DecodeError>, nat) {
        let (res, n) = fixed_decoding(input, 2);
        (
            match res {
                Ok(v) => Ok((v as u16) as i16),
                Err(e) => Err(e),
            },
            n,
        )
    }

    fn decode(r: &mut &[u8]) -> (res: Result<i16, DecodeError>) {
        match r.read_i16() {
            Ok(v) => Ok(v),
            Err(_) => Err(DecodeError::UnexpectedEnd),
        }
    }
}

impl Encode for u32 {
    open spec fn encoding(&self) -> Seq<u8> {
        be_bytes(*self as nat, 4)
    }

    fn encode(&self, w: &mut Vec<u8>) {
        push_be(w, *self as u128, 4);
    }
}

impl Decode for u32 {
    open spec fn decoding(input: Seq<u8>) -> (Result<u32, DecodeError>, nat) {
        let (res, n) = fixed_decoding(input, 4);
        (
            match res {
                Ok(v) => Ok(v as u32),
                Err(e) => Err(e),
            },
            n,
        )
    }

    fn decode(r: &mut &[u8]) -> (res: Result<u32, DecodeError>) {
        match r.read_u32() {
            Ok(v) => Ok(v),
            Err(_) => Err(DecodeError::UnexpectedEnd),
        }
    }
}

impl Encode for i32 {
    open spec fn encoding(&self) -> Seq<u8> {
        be_bytes((*self as u32) as nat, 4)
    }

    fn encode(&self, w: &mut Vec<u8>) {
        push_be(w, (*self as u32) as u128, 4);
    }
}

impl Decode for i32 {
    open spec fn decoding(input: Seq<u8>) -> (Result<i32, DecodeError>, nat) {
        let (res, n) = fixed_decoding(input, 4);
        (
            match res {
                Ok(v) => Ok((v as u32) as i32),
                Err(e) => Err(e),
            },
            n,
        )
    }

    fn decode(r: &mut &[u8]) -> (res: Result<i32, DecodeError>) {
        match r.read_i32() {
            Ok(v) => Ok(v),
            Err(_) => Err(DecodeError::UnexpectedEnd),
        }
    }
}

impl Encode for u64 {
    open spec fn encoding(&self) -> Seq<u8> {
        be_bytes(*self as nat, 8)
    }

    fn encode(&self, w: &mut Vec<u8>) {
        push_be(w, *self as u128, 8);
    }
}

impl Decode for u64 {
    open spec fn decoding(input: Seq<u8>) -> (Result<u64, DecodeError>, nat) {
        let (res, n) = fixed_decoding(input, 8);
        (
            match res {
                Ok(v) => Ok(v as u64),
                Err(e) => Err(e),
            },
            n,
        )
    }

    fn decode(r: &mut &[u8]) -> (res: Result<u64, DecodeError>) {
        match r.read_u64() {
            Ok(v) => Ok(v),
            Err(_) => Err(DecodeError::UnexpectedEnd),
        }
    }
}

impl Encode for i64 {
    open spec fn encoding(&self) -> Seq<u8> {
        be_bytes((*self as u64) as nat, 8)
    }

    fn encode(&self, w: &mut Vec<u8>) {
        push_be(w, (*self as u64) as u128, 8);
    }
}

impl Decode for i64 {
    open spec fn decoding(input: Seq<u8>) -> (Result<i64, DecodeError>, nat) {
        let (res, n) = fixed_decoding(input, 8);
        (
            match res {
                Ok(v) => Ok((v as u64) as i64),
                Err(e) => Err(e),
            },
            n,
        )
    }

    fn decode(r: &mut &[u8]) -> (res: Result<i64, DecodeError>) {
        match r.read_i64() {
            Ok(v) => Ok(v),
            Err(_) => Err(DecodeError::UnexpectedEnd),
        }
    }
}

impl Encode for u128 {
    open spec fn encoding(&self) -> Seq<u8> {
        be_bytes(*self as nat, 16)
    }

    fn encode(&self, w: &mut Vec<u8>) {
        push_be(w, *self, 16);
    }
}

/// The error of `embedded_io`'s `Read::read_exact`.
#[verifier::external_type_specification]
#[verifier::external_body]
#[verifier::reject_recursive_types(E)]
pub struct ExReadExactError<E>(ReadExactError<E>);

/// `embedded_io`'s `Read::read_exact` on a byte slice, filling a 16-byte
/// buffer. With at least 16 bytes left it copies the first 16 into `buf`,
/// advances past them and succeeds; with fewer it reads everything that is
/// left and fails. What it leaves in `buf` when it fails is not stated.
#[verifier::external_body]
fn read_exact_16(r: &mut &[u8], buf: &mut [u8; 16]) -> (res: Result<(), ReadExactError<Infallible>>)
    ensures
        old(r)@.len() >= 16 ==> res is Ok && final(buf)@ == old(r)@.take(16) && final(r)@ == old(
            r,
        )@.skip(16),
        old(r)@.len() < 16 ==> res is Err && final(r)@ == Seq::<u8>::empty(),
{
    embedded_io::Read::read_exact(r, buf)
}

impl Decode for u128 {
    open spec fn decoding(input: Seq<u8>) -> (Result<u128, DecodeError>, nat) {
        if input.len() >= 16 {
            (Ok(be_value(input.take(16)) as u128), 16)
        } else {
            (Err(DecodeError::UnexpectedEnd), input.len())
        }
    }

    fn decode(r: &mut &[u8]) -> (res: Result<u128, DecodeError>) {
        let mut buf = [0u8; 16];
        let ghost s = r@;
        match read_exact_16(r, &mut buf) {
            Ok(()) => {},
            Err(_) => {
                proof {
                    assert(s.skip(s.len() as int) =~= Seq::<u8>::empty());
                }
                return Err(DecodeError::UnexpectedEnd);
            },
        }
        let mut b: &[u8] = buf.as_slice();
        proof {
            assert(b@ =~= s.take(16));
            assert(b@.take(16) =~= b@);
        }
        let v = match b.read_u128() {
            Ok(v) => v,
            Err(_) => 0,
        };
        Ok(v)
    }
}

/// Reading a fixed-width integer back from its `n` bytes, whatever follows.
proof fn lemma_fixed_roundtrip(v: nat, n: nat, rest: Seq<u8>)
    requires
        v < crate::be::pow256(n),
    ensures
        be_bytes(v, n).len() == n,
        fixed_decoding(be_bytes(v, n) + rest, n) == (Ok::<nat, DecodeError>(v), n),
{
    lemma_be_roundtrip(v, n);
    assert((be_bytes(v, n) + rest).take(n as int) =~= be_bytes(v, n));
    vstd::arithmetic::div_mod::lemma_small_mod(v, crate::be::pow256(n));
}

/// Every boolean reads back as itself from its byte, whatever follows.
pub proof fn lemma_bool_roundtrip(b: bool, rest: Seq<u8>)
    ensures
        <bool as Decode>::decoding(b.encoding() + rest) == (Ok::<bool, DecodeError>(b), 1nat),
{
    assert((b.encoding() + rest)[0] == b.encoding()[0]);
}

/// Every byte reads back as itself, whatever follows.
pub proof fn lemma_u8_roundtrip(v: u8, rest: Seq<u8>)
    ensures
        <u8 as Decode>::decoding(v.encoding() + rest) == (Ok::<u8, DecodeError>(v), 1nat),
{
    lemma_be_value_first(v.encoding() + rest);
}

/// Every signed byte reads back as itself, whatever follows.
pub proof fn lemma_i8_roundtrip(v: i8, rest: Seq<u8>)
    ensures
        <i8 as Decode>::decoding(v.encoding() + rest) == (Ok::<i8, DecodeError>(v), 1nat),
{
    lemma_be_value_first(v.encoding() + rest);
    assert(((v as u8) as i8) == v) by (bit_vector);
}

/// Every `u16` reads back as itself from its 2 big-endian bytes, whatever follows.
pub proof fn lemma_u16_roundtrip(v: u16, rest: Seq<u8>)
    ensures
        v.encoding().len() == 2,
        <u16 as Decode>::decoding(v.encoding() + rest) == (Ok::<u16, DecodeError>(v), 2nat),
{
    lemma_pow256_facts(2);
    lemma_fixed_roundtrip(v as nat, 2, rest);
    lemma_be_roundtrip(v as nat, 2);
    vstd::arithmetic::div_mod::lemma_small_mod(v as nat, crate::be::pow256(2));
    assert((v.encoding() + rest).take(2) =~= v.encoding());
}

/// Every `i16` reads back as itself from its 2 big-endian bytes, whatever follows.
pub proof fn lemma_i16_roundtrip(v: i16, rest: Seq<u8>)
    ensures
        v.encoding().len() == 2,
        <i16 as Decode>::decoding(v.encoding() + rest) == (Ok::<i16, DecodeError>(v), 2nat),
{
    lemma_pow256_facts(2);
    lemma_fixed_roundtrip((v as u16) as nat, 2, rest);
    assert(((v as u16) as i16) == v) by (bit_vector);
}

/// Every `u32` reads back as itself from its 4 big-endian bytes, whatever follows.
pub proof fn lemma_u32_roundtrip(v: u32, rest: Seq<u8>)
    ensures
        v.encoding().len() == 4,
        <u32 as Decode>::decoding(v.encoding() + rest) == (Ok::<u32, DecodeError>(v), 4nat),
{
    lemma_pow256_facts(4);
    lemma_fixed_roundtrip(v as nat, 4, rest);
    lemma_be_roundtrip(v as nat, 4);
    vstd::arithmetic::div_mod::lemma_small_mod(v as nat, crate::be::pow256(4));
    assert((v.encoding() + rest).take(4) =~= v.encoding());
}

/// Every `i32` reads back as itself from its 4 big-endian bytes, whatever follows.
pub proof fn lemma_i32_roundtrip(v: i32, rest: Seq<u8>)
    ensures
        v.encoding().len() == 4,
        <i32 as Decode>::decoding(v.encoding() + rest) == (Ok::<i32, DecodeError>(v), 4nat),
{
    lemma_pow256_facts(4);
    lemma_fixed_roundtrip((v as u32) as nat, 4, rest);
    assert(((v as u32) as i32) == v) by (bit_vector);
}

/// Every `u64` reads back as itself from its 8 big-endian bytes, whatever follows.
pub proof fn lemma_u64_roundtrip(v: u64, rest: Seq<u8>)
    ensures
        v.encoding().len() == 8,
        <u64 as Decode>::decoding(v.encoding() + rest) == (Ok::<u64, DecodeError>(v), 8nat),
{
    lemma_pow256_facts(8);
    lemma_fixed_roundtrip(v as nat, 8, rest);
    lemma_be_roundtrip(v as nat, 8);
    vstd::arithmetic::div_mod::lemma_small_mod(v as nat, crate::be::pow256(8));
    assert((v.encoding() + rest).take(8) =~= v.encoding());
}

/// Every `i64` reads back as itself from its 8 big-endian bytes, whatever follows.
pub proof fn lemma_i64_roundtrip(v: i64, rest: Seq<u8>)
    ensures
        v.encoding().len() == 8,
        <i64 as Decode>::decoding(v.encoding() + rest) == (Ok::<i64, DecodeError>(v), 8nat),
{
    lemma_pow256_facts(8);
    lemma_fixed_roundtrip((v as u64) as nat, 8, rest);
    assert(((v as u64) as i64) == v) by (bit_vector);
}

/// Every `u128` reads back as itself from its 16 big-endian bytes, whatever follows.
pub proof fn lemma_u128_roundtrip(v: u128, rest: Seq<u8>)
    ensures
        v.encoding().len() == 16,
        <u128 as Decode>::decoding(v.encoding() + rest) == (Ok::<u128, DecodeError>(v), 16nat),
{
    lemma_pow256_facts(16);
    lemma_fixed_roundtrip(v as nat, 16, rest);
    lemma_be_roundtrip(v as nat, 16);
    vstd::arithmetic::div_mod::lemma_small_mod(v as nat, crate::be::pow256(16));
    assert((v.encoding() + rest).take(16) =~= v.encoding());
}

} // verus!
