//! Encodings of optional values, UUIDs and NBT compounds.
use vstd::prelude::*;
use vstd::utf8::valid_utf8;
use uuid::Uuid;
use crate::be::be_bytes;
use crate::nbt::compound::Compound;
use crate::{Decode, DecodeError, Encode};

verus! {

impl<T: Encode> Encode for Option<T> {
    open spec fn encoding(&self) -> Seq<u8> {
        match self {
            Some(t) => seq![1u8] + t.encoding(),
            None => seq![0u8],
        }
    }

    fn encode(&self, w: &mut Vec<u8>) {
        match self {
            Some(t) => {
                true.encode(w);
                t.encode(w);
                proof {
                    assert(old(w)@ + seq![1u8] + t.encoding() =~= old(w)@ + (seq![1u8]
                        + t.encoding()));
                }
            },
            None => false.encode(w),
        }
    }
}

impl<T: Decode> Decode for Option<T> {
    open spec fn decoding(input: Seq<u8>) -> (Result<Option<T>, DecodeError>, nat) {
        let (flag, n) = <bool as Decode>::decoding(input);
        match flag {
            Err(e) => (Err(e), n),
            Ok(false) => (Ok(None), n),
            Ok(true) => {
                let (inner, m) = T::decoding(input.skip(1));
                (
                    match inner {
                        Ok(t) => Ok(Some(t)),
                        Err(e) => Err(e),
                    },
                    1 + m,
                )
            },
        }
    }

    fn decode(r: &mut &[u8]) -> (res: Result<Option<T>, DecodeError>) {
        let ghost s = r@;
        let present = match <bool as Decode>::decode(r) {
            Ok(b) => b,
            Err(e) => return Err(e),
        };
        if present {
            proof {
                assert(r@ == s.skip(1));
            }
            match T::decode(r) {
                Ok(t) => {
                    proof {
                        assert(s.skip(1).skip(T::decoding(s.skip(1)).1 as int) =~= s.skip(
                            1 + T::decoding(s.skip(1)).1 as int,
                        ));
                    }
                    Ok(Some(t))
                },
                Err(e) => {
                    proof {
                        assert(s.skip(1).skip(T::decoding(s.skip(1)).1 as int) =~= s.skip(
                            1 + T::decoding(s.skip(1)).1 as int,
                        ));
                    }
                    Err(e)
                },
            }
        } else {
            Ok(None)
        }
    }
}

/// An optional value reads back as itself when its content does: `None` from
/// its flag byte, `Some(t)` from the flag byte and the encoding of `t`.
pub proof fn lemma_option_roundtrip<T: Encode + Decode>(o: Option<T>, rest: Seq<u8>)
    requires
        o matches Some(t) ==> T::decoding(t.encoding() + rest) == (
            Ok::<T, DecodeError>(t),
            t.encoding().len(),
        ),
    ensures
        <Option<T> as Decode>::decoding(o.encoding() + rest) == (
            Ok::<Option<T>, DecodeError>(o),
            o.encoding().len(),
        ),
{
    let s = o.encoding() + rest;
    assert(s[0] == o.encoding()[0]);
    if let Some(t) = o {
        assert(s.skip(1) =~= t.encoding() + rest);
    }
}

/// A universally unique identifier of the `uuid` crate.
#[verifier::external_type_specification]
#[verifier::external_body]
pub struct ExUuid(Uuid);

/// The UUID whose 128 bits, most significant first, are `v`.
pub uninterp spec fn uuid_from_bits(v: u128) -> Uuid;

/// `Uuid::from_u128`: the UUID with the bits of `v`.
#[verifier::external_body]
fn uuid_from_u128(v: u128) -> (u: Uuid)
    ensures
        u == uuid_from_bits(v),
{
    Uuid::from_u128(v)
}

/// `Uuid::as_u128`: the bits of `u`, the only value that `from_u128` turns
/// into `u`.
#[verifier::external_body]
fn uuid_as_u128(u: &Uuid) -> (v: u128)
    ensures
        uuid_from_bits(v) == *u,
        forall|w: u128| #[trigger] uuid_from_bits(w) == *u ==> w == v,
{
    u.as_u128()
}

/// The bits of a UUID.
pub open spec fn uuid_bits(u: Uuid) -> u128 {
    choose|v: u128| uuid_from_bits(v) == u
}

impl Encode for Uuid {
    open spec fn encoding(&self) -> Seq<u8> {
        be_bytes(uuid_bits(*self) as nat, 16)
    }

    fn encode(&self, w: &mut Vec<u8>) {
        let v = uuid_as_u128(self);
        v.encode(w);
    }
}

impl Decode for Uuid {
    open spec fn decoding(input: Seq<u8>) -> (Result<Uuid, DecodeError>, nat) {
        let (res, n) = <u128 as Decode>::decoding(input);
        (
            match res {
                Ok(v) => Ok(uuid_from_bits(v)),
                Err(e) => Err(e),
            },
            n,
        )
    }

    fn decode(r: &mut &[u8]) -> (res: Result<Uuid, DecodeError>) {
        match <u128 as Decode>::decode(r) {
            Ok(v) => Ok(uuid_from_u128(v)),
            Err(e) => Err(e),
        }
    }
}

/// Every UUID reads back as itself from its 16 bytes, whatever follows.
pub proof fn lemma_uuid_roundtrip(u: Uuid, v: u128, rest: Seq<u8>)
    requires
        uuid_from_bits(v) == u,
    ensures
        <Uuid as Decode>::decoding(u.encoding() + rest) == (Ok::<Uuid, DecodeError>(u), 16nat),
{
    crate::primitive::lemma_u128_roundtrip(uuid_bits(u), rest);
}

/// `core::str::from_utf8` succeeds: whether `b` is valid UTF-8.
#[verifier::external_body]
fn is_utf8(b: &[u8]) -> (ok: bool)
    ensures
        ok == valid_utf8(b@),
{
    core::str::from_utf8(b).is_ok()
}

/// Walking the records of a compound body, each a key length byte, the key
/// and a value byte, up to the end of `s`: `None` where a record is cut
/// short, otherwise whether every key is valid UTF-8 (the walk stops at the
/// first key that is not) and how many bytes the walk consumes.
pub open spec fn compound_records(s: Seq<u8>) -> Option<(bool, nat)>
    decreases s.len(),
{
    if s.len() == 0 {
        Some((true, 0))
    } else {
        let kl = s[0] as nat;
        let t = s.skip(1);
        if kl > t.len() {
            None
        } else if !valid_utf8(t.take(kl as int)) {
            Some((false, 1))
        } else if t.len() == kl {
            None
        } else {
            match compound_records(t.skip(kl as int + 1)) {
                None => None,
                Some((ok, n)) => Some((ok, kl + 2 + n)),
            }
        }
    }
}

/// The bytes of one compound record: the key's length byte, the key, and
/// the value byte.
pub open spec fn record_bytes(key: Seq<u8>, value: u8) -> Seq<u8> {
    seq![key.len() as u8] + key + seq![value]
}

/// The bytes of a list of records, one after another.
pub open spec fn records_bytes(keys: Seq<Seq<u8>>, values: Seq<u8>) -> Seq<u8>
    decreases keys.len(),
{
    if keys.len() == 0 || values.len() == 0 {
        Seq::empty()
    } else {
        record_bytes(keys[0], values[0]) + records_bytes(keys.drop_first(), values.drop_first())
    }
}

/// One record, then whatever follows: a key that is not valid UTF-8 stops
/// the walk at once (one byte, the length byte, read), whatever the value
/// byte; a valid key and any value byte make a record of `key.len() + 2`
/// bytes, and the walk goes on with what follows.
pub proof fn lemma_compound_record(key: Seq<u8>, value: u8, rest: Seq<u8>)
    requires
        key.len() < 256,
    ensures
        compound_records(record_bytes(key, value) + rest) == if !valid_utf8(key) {
            Some((false, 1nat))
        } else {
            match compound_records(rest) {
                None => None,
                Some((ok, n)) => Some((ok, key.len() + 2 + n)),
            }
        },
{
    let s = record_bytes(key, value) + rest;
    assert(s[0] == key.len() as u8);
    assert(s.skip(1).take(key.len() as int) =~= key);
    assert(s.skip(1).skip(key.len() as int + 1) =~= rest);
}

/// A record cut off after its key, before the value byte: a key that is not
/// valid UTF-8 is still reported, a valid one leaves the record incomplete.
pub proof fn lemma_compound_record_without_value(key: Seq<u8>)
    requires
        key.len() < 256,
    ensures
        compound_records(seq![key.len() as u8] + key) == if !valid_utf8(key) {
            Some((false, 1nat))
        } else {
            None
        },
{
    let s = seq![key.len() as u8] + key;
    assert(s[0] == key.len() as u8);
    assert(s.skip(1) =~= key);
    assert(s.skip(1).take(key.len() as int) =~= key);
}

/// Records whose keys are all valid UTF-8, with any value bytes, are read
/// to the end: the walk succeeds and consumes every byte.
pub proof fn lemma_compound_records_all_valid(keys: Seq<Seq<u8>>, values: Seq<u8>)
    requires
        keys.len() == values.len(),
        forall|i: int| 0 <= i < keys.len() ==> (#[trigger] keys[i]).len() < 256 && valid_utf8(keys[i]),
    ensures
        compound_records(records_bytes(keys, values)) == Some(
            (true, records_bytes(keys, values).len()),
        ),
    decreases keys.len(),
{
    if keys.len() == 0 {
        assert(records_bytes(keys, values) =~= Seq::<u8>::empty());
    } else {
        let k0 = keys[0];
        let rest = records_bytes(keys.drop_first(), values.drop_first());
        assert forall|i: int| 0 <= i < keys.drop_first().len() implies (#[trigger] keys.drop_first()[i]).len()
            < 256 && valid_utf8(keys.drop_first()[i]) by {
            assert(keys.drop_first()[i] == keys[i + 1]);
        }
        lemma_compound_records_all_valid(keys.drop_first(), values.drop_first());
        lemma_compound_record(k0, values[0], rest);
    }
}

/// Writes the binary form of a compound. Nothing is written: the binary
/// format of values is not part of this library.
pub fn custom_encode_to_binary<V>(compound: &Compound<V>, w: &mut Vec<u8>) -> (res: Result<
    (),
    DecodeError,
>)
    ensures
        res is Ok,
        final(w)@ == old(w)@,
{
    Ok(())
}

impl<V> Encode for Compound<V> {
    open spec fn encoding(&self) -> Seq<u8> {
        Seq::empty()
    }

    fn encode(&self, w: &mut Vec<u8>) {
        let _ = custom_encode_to_binary(self, w);
        proof {
            assert(old(w)@ + Seq::<u8>::empty() =~= old(w)@);
        }
    }
}

/// Reads the records of a compound body up to the end of `r`, checking
/// that each key is valid UTF-8; the values are not kept, so the compound
/// that comes out is empty.
pub fn custom_decode_from_binary<V>(r: &mut &[u8]) -> (res: Result<Compound<V>, DecodeError>)
    requires
        compound_records(old(r)@) is Some,
    ensures
        match compound_records(old(r)@) {
            Some((true, n)) => res matches Ok(c) && c@ == Map::<Seq<char>, V>::empty()
                && final(r)@ == old(r)@.skip(n as int),
            Some((false, n)) => res == Err::<Compound<V>, DecodeError>(DecodeError::InvalidKey)
                && final(r)@ == old(r)@.skip(n as int),
            None => false,
        },
    decreases old(r)@.len(),
{
    let compound = Compound::new();
    let ghost s = r@;
    let ghost mut done: nat = 0;
    proof {
        assert(s.skip(0) =~= s);
    }
    while r.len() != 0
        invariant
            s == old(r)@,
            done <= s.len(),
            r@ == s.skip(done as int),
            compound_records(r@) is Some,
            compound_records(s) matches Some((ok, n)) && compound_records(r@) matches Some((
                ok2,
                n2,
            )) && ok == ok2 && n == done + n2,
            compound@ == Map::<Seq<char>, V>::empty(),
        decreases r@.len(),
    {
        let key_length = r[0] as usize;
        let ghost t = r@;
        let (_, rest) = r.split_at(1);
        *r = rest;

        let (key, rest) = r.split_at(key_length);
        if !is_utf8(key) {
            proof {
                assert(t.skip(1) =~= r@);
                assert(key@ =~= t.skip(1).take(key_length as int));
                assert(s.skip(done + 1int) =~= r@);
                assert(!valid_utf8(t.skip(1).take(key_length as int)));
                assert(compound_records(t) == Some((false, 1nat)));
            }
            return Err(DecodeError::InvalidKey);
        }
        *r = rest;

        let _value = r[0];
        let (_, rest) = r.split_at(1);
        *r = rest;
        proof {
            assert(t.skip(1).take(key_length as int) =~= key@);
            assert(t.skip(1).skip(key_length as int + 1) =~= r@);
            assert(s.skip(done + key_length + 2int) =~= r@);
            done = done + key_length as nat + 2;
        }
    }
    proof {
        assert(s.skip(s.len() as int) =~= r@);
    }
    Ok(compound)
}

impl<V> Compound<V> {
    /// Reads a compound: a single zero byte is the empty compound, anything
    /// else is a compound body up to the end of `r`.
    pub fn decode(r: &mut &[u8]) -> (res: Result<Compound<V>, DecodeError>)
        requires
            !(old(r)@.len() > 0 && old(r)@[0] == 0) ==> compound_records(old(r)@) is Some,
        ensures
            old(r)@.len() > 0 && old(r)@[0] == 0 ==> (res matches Ok(c) && c@ == Map::<
                Seq<char>,
                V,
            >::empty() && final(r)@ == old(r)@.skip(1)),
            !(old(r)@.len() > 0 && old(r)@[0] == 0) ==> match compound_records(old(r)@) {
                Some((true, n)) => res matches Ok(c) && c@ == Map::<Seq<char>, V>::empty()
                    && final(r)@ == old(r)@.skip(n as int),
                Some((false, n)) => res == Err::<Compound<V>, DecodeError>(
                    DecodeError::InvalidKey,
                ) && final(r)@ == old(r)@.skip(n as int),
                None => false,
            },
    {
        // Check for null compound.
        if r.len() > 0 && r[0] == 0 {
            let (_, rest) = r.split_at(1);
            *r = rest;
            return Ok(Compound::new());
        }
        custom_decode_from_binary(r)
    }
}

} // verus!
