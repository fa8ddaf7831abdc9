use vstd::prelude::*;
use crate::be::lemma_be_value_first;
use crate::leb::{
    leb128, leb_consumed, leb_scan, leb_value, lemma_leb_len_matches, lemma_leb_len_ranges,
    lemma_leb_scan_bounds, lemma_leb_scan_step, lemma_leb_value_step, lemma_pow128_shift, pow128,
};
use crate::var_int::{decode_error_of, Read, VarIntDecodeError};
use crate::{Decode, DecodeError, Encode};

verus! {

/// An `i64` encoded with variable length.
#[derive(Clone, Copy, Default, PartialEq, Eq, PartialOrd, Ord, Hash, Debug)]
pub struct VarLong(pub i64);

/// The bytes that encode `n`: the shortest encoding of its 64-bit two's
/// complement pattern.
pub open spec fn varlong_encoding(n: i64) -> Seq<u8> {
    leb128((n as u64) as nat)
}

/// The `i64` whose two's complement pattern is the low 64 bits of `v`.
pub open spec fn wrap_i64(v: nat) -> i64 {
    ((v % 0x1_0000_0000_0000_0000) as u64) as i64
}

/// Reading a `VarLong` from the start of `s`: the value (the low 64 bits of
/// what the groups of seven bits spell), or why there is none, and how many
/// bytes the reader consumes either way.
pub open spec fn varlong_decoding(s: Seq<u8>) -> (Result<i64, VarIntDecodeError>, nat) {
    match leb_scan(s, 10) {
        Ok(k) => (Ok(wrap_i64(leb_value(s.take(k as int)))), k),
        Err(e) => (Err(e), leb_consumed(s, 10)),
    }
}

/// `val | (c << 7i)` adds the next group of seven bits.
proof fn lemma_or_group_u64(val: u64, c: u64, i: u64)
    requires
        i < 10,
        c < 128,
        (val as u128) < (1u128 << (7 * i) as u128),
    ensures
        (val | (c << (7 * i) as u64)) as nat == ((val as nat) + (c as nat) * ((1u128 << (7 * i) as u128) as nat)) % 0x1_0000_0000_0000_0000,
{
    assert(i < 10 && c < 128 && (val as u128) < (1u128 << (7 * i) as u128) ==> ((val | (c << (7 * i) as u64)) as u128) == ((val as u128) + (c as u128) * (1u128 << (7 * i) as u128)) % 0x1_0000_0000_0000_0000) by (bit_vector);
}

/// The number of leading zero bits of a nonzero `u64` determines its range.
proof fn lemma_leading_zeros_ranges_u64(x: u64, lz: u64)
    requires
        x != 0,
        lz < 64,
        x >> (64 - lz) as u64 == 0,
        (x >> (63 - lz) as u64) & 1u64 != 0u64,
    ensures
        x < 0x80 ==> 57 <= lz,
        0x80 <= x < 0x4000 ==> 50 <= lz < 57,
        0x4000 <= x < 0x20_0000 ==> 43 <= lz < 50,
        0x20_0000 <= x < 0x1000_0000 ==> 36 <= lz < 43,
        0x1000_0000 <= x < 0x8_0000_0000 ==> 29 <= lz < 36,
        0x8_0000_0000 <= x < 0x400_0000_0000 ==> 22 <= lz < 29,
        0x400_0000_0000 <= x < 0x2_0000_0000_0000 ==> 15 <= lz < 22,
        0x2_0000_0000_0000 <= x < 0x100_0000_0000_0000 ==> 8 <= lz < 15,
        0x100_0000_0000_0000 <= x < 0x8000_0000_0000_0000 ==> 1 <= lz < 8,
        0x8000_0000_0000_0000 <= x ==> lz == 0,
{
    assert(lz < 64 && x >> (64 - lz) as u64 == 0 && (x >> (63 - lz) as u64) & 1u64 != 0u64 ==> {
        &&& (x < 0x80 ==> 57 <= lz)
        &&& (0x80 <= x < 0x4000 ==> 50 <= lz < 57)
        &&& (0x4000 <= x < 0x20_0000 ==> 43 <= lz < 50)
        &&& (0x20_0000 <= x < 0x1000_0000 ==> 36 <= lz < 43)
        &&& (0x1000_0000 <= x < 0x8_0000_0000 ==> 29 <= lz < 36)
        &&& (0x8_0000_0000 <= x < 0x400_0000_0000 ==> 22 <= lz < 29)
        &&& (0x400_0000_0000 <= x < 0x2_0000_0000_0000 ==> 15 <= lz < 22)
        &&& (0x2_0000_0000_0000 <= x < 0x100_0000_0000_0000 ==> 8 <= lz < 15)
        &&& (0x100_0000_0000_0000 <= x < 0x8000_0000_0000_0000 ==> 1 <= lz < 8)
        &&& (0x8000_0000_0000_0000 <= x ==> lz == 0)
    }) by (bit_vector);
}

impl VarLong {
    /// The maximum number of bytes a `VarLong` can occupy when read from and
    /// written to the Minecraft protocol.
    pub const MAX_SIZE: usize = 10;

    /// Returns the exact number of bytes this varlong will write when
    /// [`Encode::encode`] is called.
    pub fn written_size(self) -> (n: usize)
        ensures
            n == varlong_encoding(self.0).len(),
            1 <= n <= 10,
    {
        let x = self.0 as u64;
        proof {
            lemma_leb_len_matches(x as nat);
            lemma_leb_len_ranges(x as nat);
        }
        match x {
            0 => 1,
            _ => {
                let lz = x.leading_zeros();
                proof {
                    vstd::std_specs::bits::axiom_u64_leading_zeros(x);
                    lemma_leading_zeros_ranges_u64(x, lz as u64);
                }
                (63 - lz as usize) / 7 + 1
            },
        }
    }

    /// Reads a `VarLong` from the start of `r`, reporting why when there is none.
    fn decode_raw(r: &mut &[u8]) -> (res: Result<i64, VarIntDecodeError>)
        ensures
            res == varlong_decoding(old(r)@).0,
            final(r)@ == old(r)@.skip(varlong_decoding(old(r)@).1 as int),
    {
        let ghost s = r@;
        let mut val: u64 = 0;
        let mut i: usize = 0;
        proof {
            assert(s.take(0) =~= Seq::<u8>::empty());
            assert(s.skip(0) =~= s);
        }
        while i < Self::MAX_SIZE
            invariant
                s == old(r)@,
                i <= 10,
                i <= s.len(),
                r@ == s.skip(i as int),
                forall|j: int| 0 <= j < i ==> #[trigger] s[j] >= 128,
                i < 10 ==> val as nat == leb_value(s.take(i as int)),
            decreases 10 - i,
        {
            proof {
                lemma_leb_scan_step(s, i as nat, 10);
            }
            let byte = match r.read_u8() {
                Ok(b) => b,
                Err(_e) => {
                    proof {
                        assert(s.skip(s.len() as int) =~= s.skip(i as int));
                    }
                    return Err(VarIntDecodeError::Incomplete);
                },
            };
            proof {
                lemma_be_value_first(s.skip(i as int));
                assert(s.skip(i as int)[0] == s[i as int]);
                assert(byte == s[i as int]);
                assert(s.skip(i as int).skip(1) =~= s.skip(i + 1));
                lemma_leb_value_step(s, i as nat);
                lemma_pow128_shift(i as nat);
                assert(byte & 0x7f == byte % 128 && byte & 0x7f < 128) by (bit_vector);
                lemma_or_group_u64(val, (byte & 0x7f) as u64, i as u64);
            }
            val = val | ((byte & 0x7f) as u64) << ((i * 7) as u64);
            if byte & 0x80 == 0 {
                proof {
                    assert(byte & 0x80 == 0 ==> byte < 128) by (bit_vector);
                }
                return Ok(val as i64);
            }
            proof {
                assert(byte & 0x80 != 0 ==> byte >= 128) by (bit_vector);
                if i < 9 {
                    let a = leb_value(s.take(i as int));
                    let c = (s[i as int] % 128) as nat;
                    let p = pow128(i as nat);
                    assert(a + c * p < 128 * p) by (nonlinear_arith)
                        requires
                            a < p,
                            c < 128,
                    ;
                    assert(pow128(i as nat + 1) == 128 * p);
                    lemma_pow128_shift(i as nat + 1);
                    assert(val as nat == leb_value(s.take(i as int + 1)));
                }
            }
            i = i + 1;
        }
        proof {
            lemma_leb_scan_step(s, 9, 10);
        }
        Err(VarIntDecodeError::TooLarge)
    }
}

impl Encode for VarLong {
    open spec fn encoding(&self) -> Seq<u8> {
        varlong_encoding(self.0)
    }

    fn encode(&self, w: &mut Vec<u8>) {
        let mut val = self.0 as u64;
        let ghost w0 = w@;
        let ghost enc = varlong_encoding(self.0);
        let ghost mut done: Seq<u8> = Seq::empty();
        loop
            invariant
                w0 == old(w)@,
                enc == varlong_encoding(self.0),
                w@ == w0 + done,
                enc == done + leb128(val as nat),
            decreases val,
        {
            if val & 0b1111111111111111111111111111111111111111111111111111111110000000 == 0 {
                proof {
                    assert(val & 0xffff_ffff_ffff_ff80 == 0 ==> val < 128 && val as u8 == val)
                        by (bit_vector);
                    assert(leb128(val as nat) == seq![val as u8]);
                    assert(w0 + done + seq![val as u8] =~= w0 + enc);
                }
                w.push(val as u8);
                return;
            }
            proof {
                assert(val & 0xffff_ffff_ffff_ff80 != 0 ==> val >= 128) by (bit_vector);
                assert((val as u8 & 0x7f) | 0x80 == (val % 128 + 128) as u8) by (bit_vector);
                assert(val >> 7u64 == val / 128) by (bit_vector);
                assert(leb128(val as nat) == seq![(val % 128 + 128) as u8] + leb128(
                    (val / 128) as nat,
                ));
                done = done.push((val % 128 + 128) as u8);
                assert(enc =~= done + leb128((val / 128) as nat));
            }
            w.push((val as u8 & 0b01111111) | 0b10000000);
            val = val >> 7u64;
        }
    }
}

impl Decode for VarLong {
    open spec fn decoding(input: Seq<u8>) -> (Result<VarLong, DecodeError>, nat) {
        let (res, n) = varlong_decoding(input);
        (
            match res {
                Ok(v) => Ok(VarLong(v)),
                Err(e) => Err(decode_error_of(e)),
            },
            n,
        )
    }

    fn decode(r: &mut &[u8]) -> (res: Result<VarLong, DecodeError>) {
        proof {
            lemma_leb_scan_bounds(r@, 10);
        }
        match VarLong::decode_raw(r) {
            Ok(v) => Ok(VarLong(v)),
            Err(VarIntDecodeError::Incomplete) => Err(DecodeError::UnexpectedEnd),
            Err(VarIntDecodeError::TooLarge) => Err(DecodeError::VarIntTooLarge),
        }
    }
}

/// Every `VarLong` reads back as itself from its encoding, whatever follows it:
/// the reader stops right after the encoding, which is at most
/// `VarLong::MAX_SIZE` bytes long.
pub proof fn lemma_varlong_roundtrip(n: i64, rest: Seq<u8>)
    ensures
        varlong_encoding(n).len() <= 10,
        varlong_decoding(varlong_encoding(n) + rest) == (Ok::<i64, VarIntDecodeError>(n), varlong_encoding(n).len()),
        VarLong::decoding(varlong_encoding(n) + rest) == (Ok::<VarLong, DecodeError>(VarLong(n)), varlong_encoding(n).len()),
{
    let u = (n as u64) as nat;
    lemma_leb_len_ranges(u);
    lemma_leb_len_matches(u);
    crate::leb::lemma_leb_scan_encoding(u, rest, 10);
    let s = varlong_encoding(n) + rest;
    assert(s.take(varlong_encoding(n).len() as int) =~= varlong_encoding(n));
    assert(((n as u64) as i64) == n) by (bit_vector);
}

impl From<i64> for VarLong {
    fn from(n: i64) -> (v: Self) {
        VarLong(n)
    }
}

impl vstd::std_specs::convert::FromSpecImpl<i64> for VarLong {
    open spec fn obeys_from_spec() -> bool {
        true
    }

    open spec fn from_spec(n: i64) -> Self {
        VarLong(n)
    }
}

impl From<VarLong> for i64 {
    fn from(v: VarLong) -> (n: Self) {
        v.0
    }
}

impl vstd::std_specs::convert::FromSpecImpl<VarLong> for i64 {
    open spec fn obeys_from_spec() -> bool {
        true
    }

    open spec fn from_spec(v: VarLong) -> Self {
        v.0
    }
}

} // verus!
