use vstd::prelude::*;
use crate::leb::{
    leb128, leb_consumed, leb_len, leb_scan, leb_value, lemma_leb128_index,
    lemma_leb_len_matches, lemma_leb_len_ranges, lemma_leb_scan_encoding, lemma_leb_scan_step,
    lemma_leb_value_step, lemma_pow128_shift, pow128, lemma_leb_scan_bounds,
};
use crate::{Decode, DecodeError, Encode};
use crate::be::{lemma_be_value_first, be_value, fixed_read, lemma_be_value_take_step, lemma_pow256_facts, pow256};



verus! {

/// Why reading a variable-length integer failed.
#[derive(Copy, Clone, PartialEq, Eq, Debug)]
pub enum VarIntDecodeError {
    /// The input ended before the last byte of the integer.
    Incomplete,
    /// The integer occupies more bytes than its type allows.
    TooLarge,
}

impl VarIntDecodeError {
    /// The message that describes the error.
    pub fn to_string(&self) -> (s: String)
        ensures
            s@ == self.message()@,
    {
        match self {
            VarIntDecodeError::Incomplete => "incomplete VarInt decode".to_string(),
            VarIntDecodeError::TooLarge => "VarInt is too large".to_string(),
        }
    }

    pub open spec fn message(&self) -> &'static str {
        match self {
            VarIntDecodeError::Incomplete => "incomplete VarInt decode",
            VarIntDecodeError::TooLarge => "VarInt is too large",
        }
    }
}

/// A source of bytes that integers are read from, most significant byte first.
pub trait Read: Sized {
    /// The bytes not read yet.
    spec fn unread(&self) -> Seq<u8>;

    fn read_u8(&mut self) -> (res: Result<u8, VarIntDecodeError>)
        ensures
            match fixed_read(old(self).unread(), 1) {
                Some(v) => res == Ok::<u8, VarIntDecodeError>(v as u8) && final(self).unread()
                    == old(self).unread().skip(1),
                None => res == Err::<u8, VarIntDecodeError>(VarIntDecodeError::Incomplete)
                    && final(self).unread() == old(self).unread(),
            },
    ;

    fn read_i8(&mut self) -> (res: Result<i8, VarIntDecodeError>)
        ensures
            match fixed_read(old(self).unread(), 1) {
                Some(v) => res == Ok::<i8, VarIntDecodeError>((v as u8) as i8)
                    && final(self).unread() == old(self).unread().skip(1),
                None => res == Err::<i8, VarIntDecodeError>(VarIntDecodeError::Incomplete)
                    && final(self).unread() == old(self).unread(),
            },
    ;

    fn read_u16(&mut self) -> (res: Result<u16, VarIntDecodeError>)
        ensures
            match fixed_read(old(self).unread(), 2) {
                Some(v) => res == Ok::<u16, VarIntDecodeError>(v as u16) && final(self).unread()
                    == old(self).unread().skip(2),
                None => res == Err::<u16, VarIntDecodeError>(VarIntDecodeError::Incomplete)
                    && final(self).unread() == old(self).unread(),
            },
    ;

    fn read_i16(&mut self) -> (res: Result<i16, VarIntDecodeError>)
        ensures
            match fixed_read(old(self).unread(), 2) {
                Some(v) => res == Ok::<i16, VarIntDecodeError>((v as u16) as i16)
                    && final(self).unread() == old(self).unread().skip(2),
                None => res == Err::<i16, VarIntDecodeError>(VarIntDecodeError::Incomplete)
                    && final(self).unread() == old(self).unread(),
            },
    ;

    fn read_u32(&mut self) -> (res: Result<u32, VarIntDecodeError>)
        ensures
            match fixed_read(old(self).unread(), 4) {
                Some(v) => res == Ok::<u32, VarIntDecodeError>(v as u32) && final(self).unread()
                    == old(self).unread().skip(4),
                None => res == Err::<u32, VarIntDecodeError>(VarIntDecodeError::Incomplete)
                    && final(self).unread() == old(self).unread(),
            },
    ;

    fn read_i32(&mut self) -> (res: Result<i32, VarIntDecodeError>)
        ensures
            match fixed_read(old(self).unread(), 4) {
                Some(v) => res == Ok::<i32, VarIntDecodeError>((v as u32) as i32)
                    && final(self).unread() == old(self).unread().skip(4),
                None => res == Err::<i32, VarIntDecodeError>(VarIntDecodeError::Incomplete)
                    && final(self).unread() == old(self).unread(),
            },
    ;

    fn read_u64(&mut self) -> (res: Result<u64, VarIntDecodeError>)
        ensures
            match fixed_read(old(self).unread(), 8) {
                Some(v) => res == Ok::<u64, VarIntDecodeError>(v as u64) && final(self).unread()
                    == old(self).unread().skip(8),
                None => res == Err::<u64, VarIntDecodeError>(VarIntDecodeError::Incomplete)
                    && final(self).unread() == old(self).unread(),
            },
    ;

    fn read_i64(&mut self) -> (res: Result<i64, VarIntDecodeError>)
        ensures
            match fixed_read(old(self).unread(), 8) {
                Some(v) => res == Ok::<i64, VarIntDecodeError>((v as u64) as i64)
                    && final(self).unread() == old(self).unread().skip(8),
                None => res == Err::<i64, VarIntDecodeError>(VarIntDecodeError::Incomplete)
                    && final(self).unread() == old(self).unread(),
            },
    ;

    fn read_u128(&mut self) -> (res: Result<u128, VarIntDecodeError>)
        ensures
            match fixed_read(old(self).unread(), 16) {
                Some(v) => res == Ok::<u128, VarIntDecodeError>(v as u128)
                    && final(self).unread() == old(self).unread().skip(16),
                None => res == Err::<u128, VarIntDecodeError>(VarIntDecodeError::Incomplete)
                    && final(self).unread() == old(self).unread(),
            },
    ;

    fn read_i128(&mut self) -> (res: Result<i128, VarIntDecodeError>)
        ensures
            match fixed_read(old(self).unread(), 16) {
                Some(v) => res == Ok::<i128, VarIntDecodeError>((v as u128) as i128)
                    && final(self).unread() == old(self).unread().skip(16),
                None => res == Err::<i128, VarIntDecodeError>(VarIntDecodeError::Incomplete)
                    && final(self).unread() == old(self).unread(),
            },
    ;
}

/// Takes the first `n` bytes of `r` as a big-endian number.
fn take_be(r: &mut &[u8], n: usize) -> (v: u128)
    requires
        n <= 16,
        old(r)@.len() >= n,
    ensures
        v as nat == be_value(old(r)@.take(n as int)),
        (v as nat) < pow256(n as nat),
        final(r)@ == old(r)@.skip(n as int),
{
    let mut v: u128 = 0;
    let mut i: usize = 0;
    proof {
        lemma_pow256_facts(16);
        assert(r@.take(0) =~= Seq::<u8>::empty());
    }
    while i < n
        invariant
            n <= 16,
            i <= n,
            r@.len() >= n,
            v as nat == be_value(r@.take(i as int)),
            (v as nat) < pow256(i as nat),
        decreases n - i,
    {
        proof {
            lemma_be_value_take_step(r@, i as int);
            lemma_pow256_facts(i as nat);
            lemma_pow256_monotone(i as nat + 1, 16);
            lemma_pow256_facts(16);
            assert(v * 256 + r@[i as int] < 256 * pow256(i as nat)) by (nonlinear_arith)
                requires
                    (v as nat) < pow256(i as nat),
                    r@[i as int] < 256,
            ;
        }
        v = v * 256 + r[i] as u128;
        i = i + 1;
    }
    let (_, rest) = r.split_at(n);
    *r = rest;
    v
}

proof fn lemma_pow256_monotone(a: nat, b: nat)
    requires
        a <= b,
    ensures
        pow256(a) <= pow256(b),
    decreases b,
{
    if a < b {
        lemma_pow256_monotone(a, (b - 1) as nat);
        lemma_pow256_facts((b - 1) as nat);
    }
}

impl<'a> Read for &'a [u8] {
    open spec fn unread(&self) -> Seq<u8> {
        self@
    }

    fn read_u8(&mut self) -> (res: Result<u8, VarIntDecodeError>) {
        if self.len() < 1 {
            Err(VarIntDecodeError::Incomplete)
        } else {
            let v = take_be(self, 1);
            Ok(v as u8)
        }
    }

    fn read_i8(&mut self) -> (res: Result<i8, VarIntDecodeError>) {
        match self.read_u8() {
            Ok(b) => Ok(b as i8),
            Err(e) => Err(e),
        }
    }

    fn read_u16(&mut self) -> (res: Result<u16, VarIntDecodeError>) {
        if self.len() < 2 {
            Err(VarIntDecodeError::Incomplete)
        } else {
            let v = take_be(self, 2);
            proof { lemma_pow256_facts(2); }
            Ok(v as u16)
        }
    }

    fn read_i16(&mut self) -> (res: Result<i16, VarIntDecodeError>) {
        match self.read_u16() {
            Ok(v) => Ok(v as i16),
            Err(e) => Err(e),
        }
    }

    fn read_u32(&mut self) -> (res: Result<u32, VarIntDecodeError>) {
        if self.len() < 4 {
            Err(VarIntDecodeError::Incomplete)
        } else {
            let v = take_be(self, 4);
            proof { lemma_pow256_facts(4); }
            Ok(v as u32)
        }
    }

    fn read_i32(&mut self) -> (res: Result<i32, VarIntDecodeError>) {
        match self.read_u32() {
            Ok(v) => Ok(v as i32),
            Err(e) => Err(e),
        }
    }

    fn read_u64(&mut self) -> (res: Result<u64, VarIntDecodeError>) {
        if self.len() < 8 {
            Err(VarIntDecodeError::Incomplete)
        } else {
            let v = take_be(self, 8);
            proof { lemma_pow256_facts(8); }
            Ok(v as u64)
        }
    }

    fn read_i64(&mut self) -> (res: Result<i64, VarIntDecodeError>) {
        match self.read_u64() {
            Ok(v) => Ok(v as i64),
            Err(e) => Err(e),
        }
    }

    fn read_u128(&mut self) -> (res: Result<u128, VarIntDecodeError>) {
        if self.len() < 16 {
            Err(VarIntDecodeError::Incomplete)
        } else {
            let v = take_be(self, 16);
            Ok(v)
        }
    }

    fn read_i128(&mut self) -> (res: Result<i128, VarIntDecodeError>) {
        match self.read_u128() {
            Ok(v) => Ok(v as i128),
            Err(e) => Err(e),
        }
    }
}

/// An `i32` encoded with variable length.
#[derive(Clone, Copy, Default, PartialEq, Eq, PartialOrd, Ord, Hash, Debug)]
pub struct VarInt(pub i32);

/// The bytes that encode `n`: the shortest encoding of its 32-bit two's
/// complement pattern.
pub open spec fn varint_encoding(n: i32) -> Seq<u8> {
    leb128((n as u32) as nat)
}

/// The `i32` whose two's complement pattern is the low 32 bits of `v`.
pub open spec fn wrap_i32(v: nat) -> i32 {
    ((v % 0x1_0000_0000) as u32) as i32
}

/// Reading a `VarInt` from the start of `s`: the value (the low 32 bits of
/// what the groups of seven bits spell), or why there is none, and how many
/// bytes the reader consumes either way.
pub open spec fn varint_decoding(s: Seq<u8>) -> (Result<i32, VarIntDecodeError>, nat) {
    match leb_scan(s, 5) {
        Ok(k) => (Ok(wrap_i32(leb_value(s.take(k as int)))), k),
        Err(e) => (Err(e), leb_consumed(s, 5)),
    }
}

/// `val | (c << 7i)` adds the next group of seven bits.
proof fn lemma_or_group_u32(val: u32, c: u32, i: u32)
    requires
        i < 5,
        c < 128,
        (val as u64) < (1u64 << (7 * i) as u64),
    ensures
        (val | (c << (7 * i) as u32)) as nat == ((val as nat) + (c as nat) * ((1u64 << (7 * i) as u64) as nat)) % 0x1_0000_0000,
{
    assert(i < 5 && c < 128 && (val as u64) < (1u64 << (7 * i) as u64) ==> ((val | (c << (7 * i) as u32)) as u64) == ((val as u64) + (c as u64) * (1u64 << (7 * i) as u64)) % 0x1_0000_0000) by (bit_vector);
}

impl VarInt {
    /// The maximum number of bytes a `VarInt` could occupy when read from and
    /// written to the Minecraft protocol.
    pub const MAX_SIZE: usize = 5;

    /// Returns the exact number of bytes this varint will write when
    /// [`Encode::encode`] is called.
    pub fn written_size(self) -> (n: usize)
        ensures
            n == varint_encoding(self.0).len(),
            1 <= n <= 5,
    {
        let x = self.0 as u32;
        proof {
            lemma_leb_len_matches(x as nat);
            lemma_leb_len_ranges(x as nat);
        }
        match x {
            0 => 1,
            _ => {
                let lz = x.leading_zeros();
                proof {
                    vstd::std_specs::bits::axiom_u32_leading_zeros(x);
                    assert(lz < 32);
                    lemma_leading_zeros_ranges(x, lz);
                }
                (31 - lz as usize) / 7 + 1
            },
        }
    }

    /// Decodes a `VarInt` with partial input support.
    pub fn decode_partial<R: Read>(r: &mut R) -> (res: Result<i32, VarIntDecodeError>)
        ensures
            res == varint_decoding(old(r).unread()).0,
            final(r).unread() == old(r).unread().skip(varint_decoding(old(r).unread()).1 as int),
    {
        let ghost s = r.unread();
        let mut val: u32 = 0;
        let mut i: usize = 0;
        proof {
            assert(s.take(0) =~= Seq::<u8>::empty());
            assert(s.skip(0) =~= s);
        }
        while i < Self::MAX_SIZE
            invariant
                s == old(r).unread(),
                i <= 5,
                i <= s.len(),
                r.unread() == s.skip(i as int),
                forall|j: int| 0 <= j < i ==> #[trigger] s[j] >= 128,
                i < 5 ==> val as nat == leb_value(s.take(i as int)),
            decreases 5 - i,
        {
            proof {
                lemma_leb_scan_step(s, i as nat, 5);
            }
            let byte = match r.read_u8() {
                Ok(b) => b,
                Err(_e) => {
                    proof {
                        assert(s.skip(i as int).len() == 0);
                        assert(i >= s.len());
                        assert(leb_scan(s, 5) == Err::<nat, VarIntDecodeError>(VarIntDecodeError::Incomplete));
                        assert(s.skip(s.len() as int) =~= s.skip(i as int));
                    }
                    return Err(VarIntDecodeError::Incomplete);
                },
            };
            proof {
                lemma_be_value_first(s.skip(i as int));
                assert(s.skip(i as int)[0] == s[i as int]);
                assert(byte == s[i as int]);
                assert(s.skip(i as int).skip(1) =~= s.skip(i + 1));
                lemma_leb_value_step(s, i as nat);
                lemma_pow128_shift(i as nat);
                lemma_pow128_shift(i as nat + 1);
                assert(byte & 0x7f == byte % 128 && byte & 0x7f < 128) by (bit_vector);
                lemma_or_group_u32(val, (byte & 0x7f) as u32, i as u32);
                if i < 4 {
                    assert(i + 1 < 5);
                    assert(pow128(i as nat + 1) <= 0x1000_0000) by {
                        reveal_with_fuel(pow128, 5);
                    }
                }
            }
            val = val | ((byte & 0x7f) as u32) << ((i * 7) as u32);
            if byte & 0x80 == 0 {
                proof {
                    assert(byte & 0x80 == 0 ==> byte < 128) by (bit_vector);
                    assert(s.take(i as int + 1) == s.take((i + 1) as int));
                    assert(s[i as int] < 128);
                    assert(leb_scan(s, 5) == Ok::<nat, VarIntDecodeError>(i as nat + 1));
                    assert(val as nat == leb_value(s.take(i as int + 1)) % 0x1_0000_0000);
                    assert(val == (leb_value(s.take(i as int + 1)) % 0x1_0000_0000) as u32);
                    assert(r.unread() == s.skip(i as int + 1));
                }
                return Ok(val as i32);
            }
            proof {
                assert(byte & 0x80 != 0 ==> byte >= 128) by (bit_vector);
                if i < 4 {
                    let a = leb_value(s.take(i as int));
                    let c = (s[i as int] % 128) as nat;
                    let p = pow128(i as nat);
                    assert(a + c * p < 128 * p) by (nonlinear_arith)
                        requires
                            a < p,
                            c < 128,
                    ;
                    assert(pow128(i as nat + 1) == 128 * p);
                    assert(val as nat == leb_value(s.take(i as int + 1)));
                }
            }
            i = i + 1;
        }
        proof {
            lemma_leb_scan_step(s, 4, 5);
        }
        Err(VarIntDecodeError::TooLarge)
    }
}

/// The number of leading zero bits of a nonzero `u32` determines its range.
proof fn lemma_leading_zeros_ranges(x: u32, lz: u32)
    requires
        x != 0,
        lz < 32,
        x >> (32 - lz) as u32 == 0,
        (x >> (31 - lz) as u32) & 1u32 != 0u32,
    ensures
        x < 0x80 ==> 25 <= lz,
        0x80 <= x < 0x4000 ==> 18 <= lz < 25,
        0x4000 <= x < 0x20_0000 ==> 11 <= lz < 18,
        0x20_0000 <= x < 0x1000_0000 ==> 4 <= lz < 11,
        0x1000_0000 <= x ==> lz < 4,
{
    assert(lz < 32 && x >> (32 - lz) as u32 == 0 && (x >> (31 - lz) as u32) & 1u32 != 0u32 ==> {
        &&& (x < 0x80 ==> 25 <= lz)
        &&& (0x80 <= x < 0x4000 ==> 18 <= lz < 25)
        &&& (0x4000 <= x < 0x20_0000 ==> 11 <= lz < 18)
        &&& (0x20_0000 <= x < 0x1000_0000 ==> 4 <= lz < 11)
        &&& (0x1000_0000 <= x ==> lz < 4)
    }) by (bit_vector);
}

/// The seven-bit groups of the low 32 bits of `x`, spread one per byte.
pub open spec fn varint_stage1(x: u64) -> u64 {
    (x & 0x7f) | ((x & 0x3f80) << 1u64) | ((x & 0x1f_c000) << 2u64) | ((x & 0xfe0_0000) << 3u64) | ((
    x & 0xf000_0000) << 4u64)
}

/// The number of bytes the spread groups need, from its leading zeros.
pub open spec fn varint_bytes_needed(lz: u64) -> u64 {
    (8 - ((lz - 1) as u64 >> 3u64)) as u64
}

/// The spread groups with the continuation bit set on all but the last byte.
pub open spec fn varint_merged(x: u64, lz: u64) -> u64 {
    varint_stage1(x) | (0x8080_8080_8080_8080u64 & (0xffff_ffff_ffff_ffffu64 >> ((((8 - varint_bytes_needed(lz) + 1) as u64) << 3u64) - 1) as u64))
}

/// Leading zeros of the spread groups give the length of the shortest
/// encoding.
proof fn lemma_varint_bytes_needed(x: u64, lz: u64)
    requires
        lz <= 64,
        varint_stage1(x) >> (64 - lz) as u64 == 0,
        lz < 64 ==> (varint_stage1(x) >> (63 - lz) as u64) & 1u64 != 0u64,
        varint_stage1(x) == 0 <==> lz == 64,
    ensures
        28 <= lz,
        (x & 0xffff_ffff) < 0x80 ==> varint_bytes_needed(lz) == 1,
        0x80 <= (x & 0xffff_ffff) < 0x4000 ==> varint_bytes_needed(lz) == 2,
        0x4000 <= (x & 0xffff_ffff) < 0x20_0000 ==> varint_bytes_needed(lz) == 3,
        0x20_0000 <= (x & 0xffff_ffff) < 0x1000_0000 ==> varint_bytes_needed(lz) == 4,
        0x1000_0000 <= (x & 0xffff_ffff) ==> varint_bytes_needed(lz) == 5,
{
    assert(lz <= 64 && varint_stage1(x) >> (64 - lz) as u64 == 0 && (lz < 64 ==> (varint_stage1(x) >> (63 - lz) as u64) & 1u64 != 0u64) && (varint_stage1(x) == 0 <==> lz == 64) ==> {
        &&& 28 <= lz
        &&& ((x & 0xffff_ffff) < 0x80 ==> varint_bytes_needed(lz) == 1)
        &&& (0x80 <= (x & 0xffff_ffff) < 0x4000 ==> varint_bytes_needed(lz) == 2)
        &&& (0x4000 <= (x & 0xffff_ffff) < 0x20_0000 ==> varint_bytes_needed(lz) == 3)
        &&& (0x20_0000 <= (x & 0xffff_ffff) < 0x1000_0000 ==> varint_bytes_needed(lz) == 4)
        &&& (0x1000_0000 <= (x & 0xffff_ffff) ==> varint_bytes_needed(lz) == 5)
    }) by (bit_vector);
}

/// Byte `j` of the merged word is group `j` with its continuation bit.
proof fn lemma_varint_merged_byte(x: u64, lz: u64, j: u64)
    requires
        28 <= lz <= 64,
        j < varint_bytes_needed(lz),
        varint_bytes_needed(lz) <= 5,
    ensures
        ((varint_merged(x, lz) >> (8 * j) as u64) as u8) == ((((x & 0xffff_ffff) >> (7 * j) as u64) & 0x7f) | (if j + 1 < varint_bytes_needed(lz) { 0x80u64 } else { 0u64 })) as u8,
{
    let bn = varint_bytes_needed(lz);
    assert(28 <= lz <= 64 && j < varint_bytes_needed(lz) && varint_bytes_needed(lz) <= 5 ==> ((varint_merged(x, lz) >> (8 * j) as u64) as u8) == ((((x & 0xffff_ffff) >> (7 * j) as u64) & 0x7f) | (if j + 1 < varint_bytes_needed(lz) { 0x80u64 } else { 0u64 })) as u8) by (bit_vector);
}

impl Encode for VarInt {
    open spec fn encoding(&self) -> Seq<u8> {
        varint_encoding(self.0)
    }

    fn encode(&self, w: &mut Vec<u8>) {
        let x = self.0 as u64;

        // Spread the seven-bit groups one per byte.
        let stage1 = (x & 0x000000000000007f) | ((x & 0x0000000000003f80) << 1u64) | ((x
            & 0x00000000001fc000) << 2u64) | ((x & 0x000000000fe00000) << 3u64) | ((x
            & 0x00000000f0000000) << 4u64);

        // The number of bytes needed, from the leading zeros.
        let leading = stage1.leading_zeros();
        proof {
            vstd::std_specs::bits::axiom_u64_leading_zeros(stage1);
            lemma_varint_bytes_needed(x, leading as u64);
        }
        proof {
            let l = leading;
            assert(28 <= l <= 64 ==> 3 <= ((l - 1) as u32 >> 3u32) <= 7) by (bit_vector);
            assert(28 <= l <= 64 ==> (8 - ((l - 1) as u32 >> 3u32)) as u64 == varint_bytes_needed(
                l as u64,
            )) by (bit_vector);
            let b = (8 - ((l - 1) as u32 >> 3u32)) as u32;
            assert(1 <= b <= 5 ==> ((((8 - b + 1) as u32) << 3u32) - 1) as u64 == ((((8 - (b as u64) + 1) as u64) << 3u64) - 1) as u64) by (bit_vector);
            assert(1 <= b <= 5 ==> 32 <= (((8 - b + 1) as u32) << 3u32) <= 64) by (bit_vector);
        }
        let unused_bytes = (leading - 1) >> 3u32;
        let bytes_needed = 8 - unused_bytes;

        // Continuation bits on all but the last byte.
        let msbs: u64 = 0x8080808080808080;
        let msbmask: u64 = 0xffffffffffffffff >> (((8 - bytes_needed + 1) << 3u32) - 1);
        let merged = stage1 | (msbs & msbmask);

        let ghost u = (self.0 as u32) as nat;
        let ghost enc = varint_encoding(self.0);
        let ghost w0 = w@;
        proof {
            let n = self.0;
            assert((n as u64) & 0xffff_ffff == ((n as u32) as u64)) by (bit_vector);
            lemma_leb_len_matches(u);
            lemma_leb_len_ranges(u);
            assert(merged == varint_merged(x, leading as u64));
            assert(bytes_needed as nat == leb_len(u));
        }

        // Write the bytes, least significant first.
        let mut j: u32 = 0;
        while j < bytes_needed
            invariant
                bytes_needed as nat == leb_len(u),
                enc.len() == leb_len(u),
                enc == leb128(u),
                u == (x & 0xffff_ffff) as nat,
                28 <= leading <= 64,
                merged == varint_merged(x, leading as u64),
                bytes_needed as u64 == varint_bytes_needed(leading as u64),
                bytes_needed <= 5,
                j <= bytes_needed,
                w@ == w0 + enc.take(j as int),
            decreases bytes_needed - j,
        {
            proof {
                lemma_varint_merged_byte(x, leading as u64, j as u64);
                lemma_leb128_index(u, j as nat);
                lemma_pow128_shift(j as nat);
                lemma_group_u64(x & 0xffff_ffff, j as u64);
                assert(w0 + enc.take(j as int + 1) =~= (w0 + enc.take(j as int)).push(enc[j as int]));
            }
            w.push((merged >> (8 * j)) as u8);
            j = j + 1;
        }
        proof {
            assert(enc.take(j as int) =~= enc);
        }
    }
}

/// Group `j` of seven bits, by shifting and by dividing.
pub proof fn lemma_group_u64(xx: u64, j: u64)
    requires
        j < 10,
    ensures
        (xx >> (7 * j) as u64) & 0x7f == (xx / (1u64 << (7 * j) as u64)) % 128,
        ((xx >> (7 * j) as u64) & 0x7f) | 0x80u64 == ((xx >> (7 * j) as u64) & 0x7f) + 128,
        ((xx >> (7 * j) as u64) & 0x7f) | 0u64 == (xx >> (7 * j) as u64) & 0x7f,
{
    assert(((xx >> (7 * j) as u64) & 0x7f) | 0x80u64 == ((xx >> (7 * j) as u64) & 0x7f) + 128
        && ((xx >> (7 * j) as u64) & 0x7f) | 0u64 == (xx >> (7 * j) as u64) & 0x7f
        && (j == 0 ==> (xx >> 0u64) & 0x7f == (xx / (1u64 << 0u64)) % 128)
        && (j == 1 ==> (xx >> 7u64) & 0x7f == (xx / (1u64 << 7u64)) % 128)
        && (j == 2 ==> (xx >> 14u64) & 0x7f == (xx / (1u64 << 14u64)) % 128)
        && (j == 3 ==> (xx >> 21u64) & 0x7f == (xx / (1u64 << 21u64)) % 128)
        && (j == 4 ==> (xx >> 28u64) & 0x7f == (xx / (1u64 << 28u64)) % 128)
        && (j == 5 ==> (xx >> 35u64) & 0x7f == (xx / (1u64 << 35u64)) % 128)
        && (j == 6 ==> (xx >> 42u64) & 0x7f == (xx / (1u64 << 42u64)) % 128)
        && (j == 7 ==> (xx >> 49u64) & 0x7f == (xx / (1u64 << 49u64)) % 128)
        && (j == 8 ==> (xx >> 56u64) & 0x7f == (xx / (1u64 << 56u64)) % 128)
        && (j == 9 ==> (xx >> 63u64) & 0x7f == (xx / (1u64 << 63u64)) % 128)) by (bit_vector);
}

/// Maps a failed read to the error reported when decoding a value.
pub open spec fn decode_error_of(e: VarIntDecodeError) -> DecodeError {
    match e {
        VarIntDecodeError::Incomplete => DecodeError::UnexpectedEnd,
        VarIntDecodeError::TooLarge => DecodeError::VarIntTooLarge,
    }
}

impl Decode for VarInt {
    open spec fn decoding(input: Seq<u8>) -> (Result<VarInt, DecodeError>, nat) {
        let (res, n) = varint_decoding(input);
        (
            match res {
                Ok(v) => Ok(VarInt(v)),
                Err(e) => Err(decode_error_of(e)),
            },
            n,
        )
    }

    fn decode(r: &mut &[u8]) -> (res: Result<VarInt, DecodeError>) {
        proof {
            lemma_leb_scan_bounds(r@, 5);
        }
        match VarInt::decode_partial(r) {
            Ok(v) => Ok(VarInt(v)),
            Err(VarIntDecodeError::Incomplete) => Err(DecodeError::UnexpectedEnd),
            Err(VarIntDecodeError::TooLarge) => Err(DecodeError::VarIntTooLarge),
        }
    }
}

/// Every `VarInt` reads back as itself from its encoding, whatever follows it:
/// the reader stops right after the encoding, which is at most
/// `VarInt::MAX_SIZE` bytes long.
pub proof fn lemma_varint_roundtrip(n: i32, rest: Seq<u8>)
    ensures
        varint_encoding(n).len() <= 5,
        varint_decoding(varint_encoding(n) + rest) == (Ok::<i32, VarIntDecodeError>(n), varint_encoding(n).len()),
        VarInt::decoding(varint_encoding(n) + rest) == (Ok::<VarInt, DecodeError>(VarInt(n)), varint_encoding(n).len()),
{
    let u = (n as u32) as nat;
    lemma_leb_len_ranges(u);
    lemma_leb_len_matches(u);
    crate::leb::lemma_leb_scan_encoding(u, rest, 5);
    let s = varint_encoding(n) + rest;
    assert(s.take(varint_encoding(n).len() as int) =~= varint_encoding(n));
    assert(((n as u32) as i32) == n) by (bit_vector);
}

impl From<i32> for VarInt {
    fn from(n: i32) -> (v: Self) {
        VarInt(n)
    }
}

impl vstd::std_specs::convert::FromSpecImpl<i32> for VarInt {
    open spec fn obeys_from_spec() -> bool {
        true
    }

    open spec fn from_spec(n: i32) -> Self {
        VarInt(n)
    }
}

impl From<VarInt> for i32 {
    fn from(v: VarInt) -> (n: Self) {
        v.0
    }
}

impl vstd::std_specs::convert::FromSpecImpl<VarInt> for i32 {
    open spec fn obeys_from_spec() -> bool {
        true
    }

    open spec fn from_spec(v: VarInt) -> Self {
        v.0
    }
}

} // verus!
