//! The mathematics of the variable-length integer format: each byte carries
//! seven bits of the value, least significant group first, and every byte but
//! the last has its high bit set.
use vstd::prelude::*;
use crate::var_int::VarIntDecodeError;

verus! {

/// `128` raised to the power `k`.
pub open spec fn pow128(k: nat) -> nat
    decreases k,
{
    if k == 0 {
        1
    } else {
        128 * pow128((k - 1) as nat)
    }
}

/// The shortest encoding of the natural number `x`.
pub open spec fn leb128(x: nat) -> Seq<u8>
    decreases x,
{
    if x < 128 {
        seq![x as u8]
    } else {
        seq![(x % 128 + 128) as u8] + leb128(x / 128)
    }
}

/// Number of bytes in the shortest encoding of `x`.
pub open spec fn leb_len(x: nat) -> nat
    decreases x,
{
    if x < 128 {
        1
    } else {
        1 + leb_len(x / 128)
    }
}

/// The value carried by the low seven bits of each byte of `s`, first byte
/// least significant.
pub open spec fn leb_value(s: Seq<u8>) -> nat
    decreases s.len(),
{
    if s.len() == 0 {
        0
    } else {
        (s[0] % 128) as nat + 128 * leb_value(s.drop_first())
    }
}

/// Where the first encoded integer of `s` ends, reading at most `max` bytes:
/// `Ok(n)` when byte `n - 1` is the first one with its high bit clear,
/// `Incomplete` when `s` ends first, `TooLarge` when `max` bytes all have
/// their high bit set.
pub open spec fn leb_scan(s: Seq<u8>, max: nat) -> Result<nat, VarIntDecodeError>
    decreases max,
{
    if max == 0 {
        Err(VarIntDecodeError::TooLarge)
    } else if s.len() == 0 {
        Err(VarIntDecodeError::Incomplete)
    } else if s[0] < 128 {
        Ok(1)
    } else {
        match leb_scan(s.drop_first(), (max - 1) as nat) {
            Ok(n) => Ok(n + 1),
            Err(e) => Err(e),
        }
    }
}

/// How many bytes a reader consumes when it looks for an integer of at most
/// `max` bytes at the start of `s`: the integer itself, or everything up to
/// the point of failure.
pub open spec fn leb_consumed(s: Seq<u8>, max: nat) -> nat {
    match leb_scan(s, max) {
        Ok(n) => n,
        Err(VarIntDecodeError::Incomplete) => s.len(),
        Err(VarIntDecodeError::TooLarge) => max,
    }
}

pub proof fn lemma_pow128_positive(k: nat)
    ensures
        pow128(k) >= 1,
    decreases k,
{
    if k > 0 {
        lemma_pow128_positive((k - 1) as nat);
    }
}

pub proof fn lemma_leb_len_matches(x: nat)
    ensures
        leb128(x).len() == leb_len(x),
        leb_len(x) >= 1,
    decreases x,
{
    if x >= 128 {
        lemma_leb_len_matches(x / 128);
    }
}

/// Only the last byte of a shortest encoding has its high bit clear.
pub proof fn lemma_leb128_bytes(x: nat)
    ensures
        forall|i: int| 0 <= i < leb128(x).len() - 1 ==> #[trigger] leb128(x)[i] >= 128,
        leb128(x)[leb128(x).len() - 1] < 128,
    decreases x,
{
    lemma_leb_len_matches(x);
    if x >= 128 {
        lemma_leb128_bytes(x / 128);
        lemma_leb_len_matches(x / 128);
        let t = leb128(x / 128);
        assert(leb128(x) == seq![(x % 128 + 128) as u8] + t);
        assert forall|i: int| 0 <= i < leb128(x).len() - 1 implies #[trigger] leb128(x)[i] >= 128 by {
            if i > 0 {
                assert(leb128(x)[i] == t[i - 1]);
            }
        }
    }
}

/// Reading the shortest encoding of `x` stops right after it, whatever follows.
pub proof fn lemma_leb_scan_encoding(x: nat, rest: Seq<u8>, max: nat)
    requires
        leb_len(x) <= max,
    ensures
        leb_scan(leb128(x) + rest, max) == Ok::<nat, VarIntDecodeError>(leb_len(x)),
        leb_value(leb128(x)) == x,
    decreases x,
{
    let s = leb128(x) + rest;
    if x < 128 {
        assert(s[0] == x as u8);
        assert(leb128(x).drop_first() =~= Seq::<u8>::empty());
        assert(leb_value(Seq::<u8>::empty()) == 0);
    } else {
        lemma_leb_scan_encoding(x / 128, rest, (max - 1) as nat);
        assert(s.drop_first() =~= leb128(x / 128) + rest);
        assert(leb128(x).drop_first() =~= leb128(x / 128));
        let b = (x % 128 + 128) as u8;
        assert(b % 128 == x % 128);
        assert(leb128(x)[0] == b);
    }
}

/// Splitting off the last byte of a prefix.
pub proof fn lemma_leb_value_step(s: Seq<u8>, i: nat)
    requires
        i < s.len(),
    ensures
        leb_value(s.take(i as int + 1)) == leb_value(s.take(i as int)) + ((s[i as int] % 128) as nat)
            * pow128(i),
        leb_value(s.take(i as int)) < pow128(i),
    decreases i,
{
    if i == 0 {
        assert(s.take(1).drop_first() =~= Seq::<u8>::empty());
        assert(s.take(0) =~= Seq::<u8>::empty());
        assert(leb_value(Seq::<u8>::empty()) == 0);
        assert(s.take(1)[0] == s[0]);
        assert(pow128(0) == 1);
        assert(leb_value(s.take(1)) == (s[0] % 128) as nat + 128 * leb_value(s.take(1).drop_first()));
        assert(leb_value(s.take(0)) == 0);
        assert(leb_value(s.take(1)) == (s[0] % 128) as nat);
        assert(((s[0] % 128) as nat) * 1 == (s[0] % 128) as nat);
    } else {
        let t = s.drop_first();
        lemma_leb_value_step(t, (i - 1) as nat);
        assert(s.take(i as int + 1).drop_first() =~= t.take(i as int));
        assert(s.take(i as int).drop_first() =~= t.take(i - 1));
        assert(t[i - 1] == s[i as int]);
        assert(s.take(i as int + 1)[0] == s[0]);
        assert(s.take(i as int)[0] == s[0]);
        let a = leb_value(t.take(i - 1));
        let c = (s[i as int] % 128) as nat;
        let p = pow128((i - 1) as nat);
        let d = (s[0] % 128) as nat;
        assert(leb_value(t.take(i as int)) == a + c * p);
        assert(leb_value(s.take(i as int + 1)) == d + 128 * leb_value(t.take(i as int)));
        assert(leb_value(s.take(i as int)) == d + 128 * a);
        assert(pow128(i) == 128 * p);
        assert(128 * (a + c * p) == 128 * a + c * (128 * p)) by (nonlinear_arith);
        assert(128 * a + d < 128 * p) by (nonlinear_arith)
            requires
                d < 128,
                a < p,
        ;
        assert(leb_value(s.take(i as int + 1)) == leb_value(s.take(i as int)) + c * pow128(i));
    }
}

/// Scanning succeeds exactly at the first byte with its high bit clear.
pub proof fn lemma_leb_scan_step(s: Seq<u8>, i: nat, max: nat)
    requires
        i < max,
        forall|j: int| 0 <= j < i && j < s.len() ==> #[trigger] s[j] >= 128,
    ensures
        i >= s.len() ==> leb_scan(s, max) == Err::<nat, VarIntDecodeError>(VarIntDecodeError::Incomplete),
        i < s.len() && s[i as int] < 128 ==> leb_scan(s, max) == Ok::<nat, VarIntDecodeError>(i + 1),
        i < s.len() && s[i as int] >= 128 && i + 1 == max ==> leb_scan(s, max) == Err::<
            nat,
            VarIntDecodeError,
        >(VarIntDecodeError::TooLarge),
    decreases i,
{
    if i == 0 && s.len() > 0 && max == 1 {
        assert(leb_scan(s.drop_first(), 0) == Err::<nat, VarIntDecodeError>(
            VarIntDecodeError::TooLarge,
        ));
    }
    if i > 0 && s.len() > 0 {
        let t = s.drop_first();
        assert forall|j: int| 0 <= j < i - 1 && j < t.len() implies #[trigger] t[j] >= 128 by {
            assert(t[j] == s[j + 1]);
        }
        lemma_leb_scan_step(t, (i - 1) as nat, (max - 1) as nat);
    }
}

/// The bytes of a shortest encoding, one by one: the `j`-th group of seven
/// bits, with the high bit set on every byte but the last.
pub proof fn lemma_leb128_index(x: nat, j: nat)
    requires
        j < leb_len(x),
    ensures
        leb128(x)[j as int] == (if j + 1 < leb_len(x) {
            ((x / pow128(j)) % 128 + 128) as u8
        } else {
            ((x / pow128(j)) % 128) as u8
        }),
        j + 1 == leb_len(x) ==> x / pow128(j) < 128,
    decreases j,
{
    lemma_leb_len_matches(x);
    if j == 0 {
        assert(x / 1 == x);
    } else {
        lemma_leb_len_matches(x / 128);
        lemma_leb128_index(x / 128, (j - 1) as nat);
        assert(leb128(x) == seq![(x % 128 + 128) as u8] + leb128(x / 128));
        assert(leb128(x)[j as int] == leb128(x / 128)[j - 1]);
        lemma_pow128_positive((j - 1) as nat);
        vstd::arithmetic::div_mod::lemma_div_denominator(x as int, 128, pow128((j - 1) as nat) as int);
    }
    if j + 1 == leb_len(x) && j == 0 && x >= 128 {
        lemma_leb_len_matches(x / 128);
    }
}

/// `pow128(k)` as a shift.
pub proof fn lemma_pow128_shift(k: nat)
    requires
        k < 10,
    ensures
        pow128(k) == (1u64 << (7 * k) as u64) as nat,
        pow128(k) == (1u128 << (7 * k) as u128) as nat,
{
    reveal_with_fuel(pow128, 10);
    assert(1u64 << 0u64 == 1
        && 1u64 << 7u64 == 0x80
        && 1u64 << 14u64 == 0x4000
        && 1u64 << 21u64 == 0x20_0000
        && 1u64 << 28u64 == 0x1000_0000
        && 1u64 << 35u64 == 0x8_0000_0000
        && 1u64 << 42u64 == 0x400_0000_0000
        && 1u64 << 49u64 == 0x2_0000_0000_0000
        && 1u64 << 56u64 == 0x100_0000_0000_0000
        && 1u64 << 63u64 == 0x8000_0000_0000_0000
        && 1u128 << 0u128 == 1
        && 1u128 << 7u128 == 0x80
        && 1u128 << 14u128 == 0x4000
        && 1u128 << 21u128 == 0x20_0000
        && 1u128 << 28u128 == 0x1000_0000
        && 1u128 << 35u128 == 0x8_0000_0000
        && 1u128 << 42u128 == 0x400_0000_0000
        && 1u128 << 49u128 == 0x2_0000_0000_0000
        && 1u128 << 56u128 == 0x100_0000_0000_0000
        && 1u128 << 63u128 == 0x8000_0000_0000_0000) by (bit_vector);
}

/// Number of bytes in the shortest encoding, by range.
pub proof fn lemma_leb_len_ranges(x: nat)
    ensures
        x < 0x80 ==> leb_len(x) == 1,
        0x80 <= x < 0x4000 ==> leb_len(x) == 2,
        0x4000 <= x < 0x20_0000 ==> leb_len(x) == 3,
        0x20_0000 <= x < 0x1000_0000 ==> leb_len(x) == 4,
        0x1000_0000 <= x < 0x8_0000_0000 ==> leb_len(x) == 5,
        0x8_0000_0000 <= x < 0x400_0000_0000 ==> leb_len(x) == 6,
        0x400_0000_0000 <= x < 0x2_0000_0000_0000 ==> leb_len(x) == 7,
        0x2_0000_0000_0000 <= x < 0x100_0000_0000_0000 ==> leb_len(x) == 8,
        0x100_0000_0000_0000 <= x < 0x8000_0000_0000_0000 ==> leb_len(x) == 9,
        0x8000_0000_0000_0000 <= x < 0x40_0000_0000_0000_0000 ==> leb_len(x) == 10,
    decreases x,
{
    if x >= 128 {
        lemma_leb_len_ranges(x / 128);
    }
}

/// What a scan consumes stays within the input and the limit.
pub proof fn lemma_leb_scan_bounds(s: Seq<u8>, max: nat)
    ensures
        leb_consumed(s, max) <= s.len(),
        leb_scan(s, max) matches Ok(k) ==> 1 <= k <= max && k <= s.len(),
    decreases max,
{
    if max > 0 && s.len() > 0 && s[0] >= 128 {
        lemma_leb_scan_bounds(s.drop_first(), (max - 1) as nat);
    }
}

/// A value below `128^c` has a shortest encoding of at most `c` bytes.
pub proof fn lemma_leb_len_below(x: nat, c: nat)
    requires
        c >= 1,
        x < pow128(c),
    ensures
        leb_len(x) <= c,
    decreases c,
{
    if x >= 128 {
        assert(c >= 2) by {
            if c == 1 {
                assert(pow128(1) == 128 * pow128(0));
            }
        }
        assert(x / 128 < pow128((c - 1) as nat)) by {
            assert(pow128(c) == 128 * pow128((c - 1) as nat));
        }
        lemma_leb_len_below(x / 128, (c - 1) as nat);
    }
}

} // verus!
