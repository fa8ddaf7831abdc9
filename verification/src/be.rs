//! Big-endian byte order, the order of every fixed-width integer on the wire.
use vstd::prelude::*;

verus! {

/// `256` raised to the power `k`.
pub open spec fn pow256(k: nat) -> nat
    decreases k,
{
    if k == 0 {
        1
    } else {
        256 * pow256((k - 1) as nat)
    }
}

/// The number whose big-endian bytes are `s`.
pub open spec fn be_value(s: Seq<u8>) -> nat
    decreases s.len(),
{
    if s.len() == 0 {
        0
    } else {
        be_value(s.drop_last()) * 256 + s.last() as nat
    }
}

/// The `n` low-order bytes of `v`, most significant first.
pub open spec fn be_bytes(v: nat, n: nat) -> Seq<u8>
    decreases n,
{
    if n == 0 {
        Seq::empty()
    } else {
        be_bytes(v / 256, (n - 1) as nat).push((v % 256) as u8)
    }
}

/// Reading a fixed-width integer of `n` bytes from the start of `s`: its
/// value when `s` holds enough bytes.
pub open spec fn fixed_read(s: Seq<u8>, n: nat) -> Option<nat> {
    if s.len() >= n {
        Some(be_value(s.take(n as int)))
    } else {
        None
    }
}

pub proof fn lemma_pow256_facts(k: nat)
    ensures
        pow256(k) >= 1,
        pow256(k + 1) == 256 * pow256(k),
        k == 1 ==> pow256(k) == 0x100,
        k == 2 ==> pow256(k) == 0x1_0000,
        k == 4 ==> pow256(k) == 0x1_0000_0000,
        k == 8 ==> pow256(k) == 0x1_0000_0000_0000_0000,
        k == 16 ==> pow256(k) == 0x1_0000_0000_0000_0000_0000_0000_0000_0000,
    decreases k,
{
    reveal_with_fuel(pow256, 17);
    if k > 0 {
        lemma_pow256_facts((k - 1) as nat);
    }
}

/// Writing then reading a fixed-width integer gives back its low-order bytes.
pub proof fn lemma_be_roundtrip(v: nat, n: nat)
    ensures
        be_bytes(v, n).len() == n,
        be_value(be_bytes(v, n)) == v % pow256(n),
    decreases n,
{
    if n > 0 {
        lemma_be_roundtrip(v / 256, (n - 1) as nat);
        let s = be_bytes(v, n);
        assert(s.drop_last() =~= be_bytes(v / 256, (n - 1) as nat));
        lemma_pow256_facts((n - 1) as nat);
        let p = pow256((n - 1) as nat);
        let q = v / 256;
        vstd::arithmetic::div_mod::lemma_mod_breakdown(v as int, 256, p as int);
        assert(256 * (q % p) + v % 256 == (q % p) * 256 + v % 256);
    }
}

/// Reading then writing a fixed-width integer gives back its bytes.
pub proof fn lemma_be_bytes_of_value(s: Seq<u8>)
    ensures
        be_bytes(be_value(s), s.len()) == s,
    decreases s.len(),
{
    if s.len() > 0 {
        let t = s.drop_last();
        lemma_be_bytes_of_value(t);
        let v = be_value(s);
        assert(v / 256 == be_value(t));
        assert(v % 256 == s.last());
        assert(be_bytes(v, s.len()) =~= s);
    }
}

/// Extending a prefix by one byte.
pub proof fn lemma_be_value_take_step(s: Seq<u8>, i: int)
    requires
        0 <= i < s.len(),
    ensures
        be_value(s.take(i + 1)) == be_value(s.take(i)) * 256 + s[i] as nat,
{
    assert(s.take(i + 1).drop_last() =~= s.take(i));
}

/// A single byte reads as itself.
pub proof fn lemma_be_value_first(s: Seq<u8>)
    requires
        s.len() >= 1,
    ensures
        be_value(s.take(1)) == s[0] as nat,
        fixed_read(s, 1) == Some(s[0] as nat),
{
    assert(s.take(1).drop_last() =~= Seq::<u8>::empty());
    assert(be_value(Seq::<u8>::empty()) == 0);
}

/// Appends the `n` low-order bytes of `v`, most significant first.
pub fn push_be(w: &mut Vec<u8>, v: u128, n: usize)
    requires
        n <= 16,
    ensures
        final(w)@ == old(w)@ + be_bytes(v as nat, n as nat),
    decreases n,
{
    if n > 0 {
        push_be(w, v / 256, n - 1);
        w.push((v % 256) as u8);
        proof {
            assert(be_bytes(v as nat, n as nat) == be_bytes((v / 256) as nat, (n - 1) as nat).push(
                (v % 256) as u8,
            ));
        }
    } else {
        proof {
            assert(old(w)@ + be_bytes(v as nat, 0) =~= old(w)@);
        }
    }
}

} // verus!
