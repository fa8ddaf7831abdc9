//! A map from string keys to values, kept in key order.
use vstd::prelude::*;
use vstd::utf8::{encode_utf8, encode_utf8_decode_utf8};
use vstd::pervasive::unreached;
use vstd::std_specs::cmp::PartialEqSpec;

verus! {

/// The result of comparing two keys.
#[derive(Copy, Clone, PartialEq, Eq, Debug)]
pub enum KeyOrder {
    Less,
    Equal,
    Greater,
}

/// Lexicographic order of byte strings: the order of `String` keys.
pub open spec fn bytes_lt(a: Seq<u8>, b: Seq<u8>) -> bool
    decreases a.len(),
{
    if a.len() == 0 {
        b.len() > 0
    } else if b.len() == 0 {
        false
    } else if a[0] != b[0] {
        a[0] < b[0]
    } else {
        bytes_lt(a.drop_first(), b.drop_first())
    }
}

/// The UTF-8 bytes of a key.
pub open spec fn key_bytes(k: Seq<char>) -> Seq<u8> {
    encode_utf8(k)
}

proof fn lemma_bytes_lt_irreflexive(a: Seq<u8>)
    ensures
        !bytes_lt(a, a),
    decreases a.len(),
{
    if a.len() > 0 {
        lemma_bytes_lt_irreflexive(a.drop_first());
    }
}

proof fn lemma_bytes_lt_transitive(a: Seq<u8>, b: Seq<u8>, c: Seq<u8>)
    requires
        bytes_lt(a, b),
        bytes_lt(b, c),
    ensures
        bytes_lt(a, c),
    decreases a.len(),
{
    if a.len() > 0 && b.len() > 0 && c.len() > 0 && a[0] == b[0] && b[0] == c[0] {
        lemma_bytes_lt_transitive(a.drop_first(), b.drop_first(), c.drop_first());
    }
}

proof fn lemma_bytes_lt_asymmetric(a: Seq<u8>, b: Seq<u8>)
    requires
        bytes_lt(a, b),
    ensures
        !bytes_lt(b, a),
        a != b,
{
    if bytes_lt(b, a) {
        lemma_bytes_lt_transitive(a, b, a);
        lemma_bytes_lt_irreflexive(a);
    }
    lemma_bytes_lt_irreflexive(a);
}

/// Two keys with the same bytes are the same key.
proof fn lemma_key_bytes_injective(a: Seq<char>, b: Seq<char>)
    requires
        key_bytes(a) == key_bytes(b),
    ensures
        a == b,
{
    encode_utf8_decode_utf8(a);
    encode_utf8_decode_utf8(b);
}

/// Compares two byte strings lexicographically.
fn compare_bytes(a: &[u8], b: &[u8]) -> (o: KeyOrder)
    ensures
        o == KeyOrder::Less <==> bytes_lt(a@, b@),
        o == KeyOrder::Greater <==> bytes_lt(b@, a@),
        o == KeyOrder::Equal <==> a@ == b@,
{
    let mut i: usize = 0;
    proof {
        assert(a@.skip(0) =~= a@);
        assert(b@.skip(0) =~= b@);
        assert(a@.take(0) =~= b@.take(0));
    }
    while i < a.len() && i < b.len()
        invariant
            i <= a.len(),
            i <= b.len(),
            a@.take(i as int) == b@.take(i as int),
            bytes_lt(a@, b@) == bytes_lt(a@.skip(i as int), b@.skip(i as int)),
            bytes_lt(b@, a@) == bytes_lt(b@.skip(i as int), a@.skip(i as int)),
        decreases a.len() - i,
    {
        if a[i] != b[i] {
            proof {
                lemma_bytes_lt_asymmetric_or(a@, b@);
            }
            if a[i] < b[i] {
                return KeyOrder::Less;
            } else {
                return KeyOrder::Greater;
            }
        }
        proof {
            assert(a@.skip(i as int).drop_first() =~= a@.skip(i + 1));
            assert(b@.skip(i as int).drop_first() =~= b@.skip(i + 1));
            assert(a@.take(i + 1) =~= a@.take(i as int).push(a@[i as int]));
            assert(b@.take(i + 1) =~= b@.take(i as int).push(b@[i as int]));
        }
        i = i + 1;
    }
    proof {
        lemma_bytes_lt_asymmetric_or(a@, b@);
        if i == a.len() && i == b.len() {
            assert(a@ =~= a@.take(i as int));
            assert(b@ =~= b@.take(i as int));
        } else if i == a.len() {
            assert(a@ =~= a@.take(i as int));
            assert(a@ != b@);
        } else {
            assert(b@ =~= b@.take(i as int));
            assert(a@ != b@);
        }
    }
    if a.len() < b.len() {
        KeyOrder::Less
    } else if b.len() < a.len() {
        KeyOrder::Greater
    } else {
        KeyOrder::Equal
    }
}

proof fn lemma_bytes_lt_asymmetric_or(a: Seq<u8>, b: Seq<u8>)
    ensures
        bytes_lt(a, b) ==> !bytes_lt(b, a) && a != b,
        bytes_lt(b, a) ==> !bytes_lt(a, b) && a != b,
        a == b ==> !bytes_lt(a, b),
{
    if bytes_lt(a, b) {
        lemma_bytes_lt_asymmetric(a, b);
    }
    if bytes_lt(b, a) {
        lemma_bytes_lt_asymmetric(b, a);
    }
    lemma_bytes_lt_irreflexive(a);
}

/// Keys strictly increasing in byte order, hence all different.
pub open spec fn sorted_keys<V>(s: Seq<(String, V)>) -> bool {
    forall|i: int, j: int|
        0 <= i < j < s.len() ==> bytes_lt(key_bytes(#[trigger] s[i].0@), key_bytes(#[trigger] s[j].0@))
}

/// No two entries have the same key.
pub open spec fn distinct_keys<V>(s: Seq<(String, V)>) -> bool {
    forall|i: int, j: int| 0 <= i < j < s.len() ==> #[trigger] s[i].0@ != #[trigger] s[j].0@
}

proof fn lemma_sorted_distinct<V>(s: Seq<(String, V)>)
    requires
        sorted_keys(s),
    ensures
        distinct_keys(s),
{
    assert forall|i: int, j: int| 0 <= i < j < s.len() implies #[trigger] s[i].0@ != #[trigger] s[j].0@ by {
        assert(bytes_lt(key_bytes(s[i].0@), key_bytes(s[j].0@)));
        lemma_bytes_lt_irreflexive(key_bytes(s[i].0@));
    }
}

/// Keys and values side by side.
pub open spec fn pairs<V>(keys: Seq<String>, values: Seq<V>) -> Seq<(String, V)> {
    Seq::new(keys.len(), |i: int| (keys[i], values[i]))
}

/// Replacing the value of entry `i` maps its key to the new value.
proof fn lemma_update_value<V>(keys: Seq<String>, values: Seq<V>, i: int, x: V)
    requires
        keys.len() == values.len(),
        0 <= i < keys.len(),
        sorted_keys(pairs(keys, values)),
    ensures
        entries_map(pairs(keys, values.update(i, x))) == entries_map(pairs(keys, values)).insert(
            keys[i]@,
            x,
        ),
{
    let s = pairs(keys, values);
    let s2 = pairs(keys, values.update(i, x));
    lemma_sorted_distinct(s);
    assert(sorted_keys(s2)) by {
        assert forall|a: int, b: int| 0 <= a < b < s2.len() implies bytes_lt(
            key_bytes(#[trigger] s2[a].0@),
            key_bytes(#[trigger] s2[b].0@),
        ) by {
            assert(s2[a].0 == s[a].0 && s2[b].0 == s[b].0);
        }
    }
    lemma_sorted_distinct(s2);
    let m = entries_map(s);
    let m2 = m.insert(keys[i]@, x);
    assert forall|q: Seq<char>| #[trigger] m2.contains_key(q) implies exists|j: int|
        0 <= j < s2.len() && #[trigger] s2[j].0@ == q by {
        if q != keys[i]@ {
            lemma_entries_map_dom(s, q);
            let j = choose|j: int| 0 <= j < s.len() && #[trigger] s[j].0@ == q;
            assert(s2[j].0@ == q);
        } else {
            assert(s2[i].0@ == q);
        }
    }
    assert forall|j: int| 0 <= j < s2.len() implies #[trigger] m2.contains_key(s2[j].0@) && m2[s2[j].0@]
        == s2[j].1 by {
        if j != i {
            lemma_entries_map_value(s, j);
            assert(s[j].0@ != s[i].0@);
        }
    }
    lemma_entries_map_char(s2, m2);
}

/// Keys strictly increasing in byte order.
pub open spec fn keys_increasing(ks: Seq<String>) -> bool {
    forall|i: int, j: int|
        0 <= i < j < ks.len() ==> bytes_lt(key_bytes(#[trigger] ks[i]@), key_bytes(#[trigger] ks[j]@))
}

/// The map that a list of entries stands for.
pub open spec fn entries_map<V>(s: Seq<(String, V)>) -> Map<Seq<char>, V>
    decreases s.len(),
{
    if s.len() == 0 {
        Map::empty()
    } else {
        entries_map(s.drop_last()).insert(s.last().0@, s.last().1)
    }
}

/// The map of a list of entries has finitely many keys.
proof fn lemma_entries_map_finite<V>(s: Seq<(String, V)>)
    ensures
        entries_map(s).dom().finite(),
    decreases s.len(),
{
    if s.len() > 0 {
        lemma_entries_map_finite(s.drop_last());
    }
}

/// The map holds exactly the keys of the entries.
proof fn lemma_entries_map_dom<V>(s: Seq<(String, V)>, k: Seq<char>)
    ensures
        entries_map(s).contains_key(k) <==> exists|i: int| 0 <= i < s.len() && #[trigger] s[i].0@ == k,
    decreases s.len(),
{
    if s.len() > 0 {
        let t = s.drop_last();
        lemma_entries_map_dom(t, k);
        if entries_map(t).contains_key(k) {
            let i = choose|i: int| 0 <= i < t.len() && #[trigger] t[i].0@ == k;
            assert(s[i].0@ == k);
        }
        if exists|i: int| 0 <= i < s.len() && #[trigger] s[i].0@ == k {
            let i = choose|i: int| 0 <= i < s.len() && #[trigger] s[i].0@ == k;
            if i < s.len() - 1 {
                assert(t[i].0@ == k);
            }
        }
    }
}

/// With all keys different, each key maps to the value of its entry.
proof fn lemma_entries_map_value<V>(s: Seq<(String, V)>, i: int)
    requires
        distinct_keys(s),
        0 <= i < s.len(),
    ensures
        entries_map(s).contains_key(s[i].0@),
        entries_map(s)[s[i].0@] == s[i].1,
    decreases s.len(),
{
    let t = s.drop_last();
    if i < s.len() - 1 {
        assert(distinct_keys(t)) by {
            assert forall|a: int, b: int| 0 <= a < b < t.len() implies #[trigger] t[a].0@
                != #[trigger] t[b].0@ by {
                assert(t[a] == s[a] && t[b] == s[b]);
            }
        }
        lemma_entries_map_value(t, i);
        assert(t[i] == s[i]);
        let last = s.len() - 1;
        assert(s[i].0@ != s[last].0@);
    }
}

/// A map is the one a list of entries with different keys stands for when
/// it has exactly their keys, each mapped to its entry's value.
proof fn lemma_entries_map_char<V>(s: Seq<(String, V)>, m: Map<Seq<char>, V>)
    requires
        distinct_keys(s),
        forall|q: Seq<char>|
            #[trigger] m.contains_key(q) ==> exists|i: int| 0 <= i < s.len() && #[trigger] s[i].0@
                == q,
        forall|i: int| 0 <= i < s.len() ==> #[trigger] m.contains_key(s[i].0@) && m[s[i].0@]
            == s[i].1,
    ensures
        entries_map(s) == m,
{
    assert forall|q: Seq<char>| #[trigger] entries_map(s).contains_key(q) <==> m.contains_key(q) by {
        lemma_entries_map_dom(s, q);
        if exists|i: int| 0 <= i < s.len() && #[trigger] s[i].0@ == q {
            let i = choose|i: int| 0 <= i < s.len() && #[trigger] s[i].0@ == q;
            assert(m.contains_key(s[i].0@));
        }
    }
    assert forall|q: Seq<char>| #[trigger] m.contains_key(q) implies entries_map(s)[q] == m[q] by {
        let i = choose|i: int| 0 <= i < s.len() && #[trigger] s[i].0@ == q;
        lemma_entries_map_value(s, i);
    }
    assert(entries_map(s) =~= m);
}

/// Two maps hold the same keys, and under each key values that `==` finds
/// equal.
pub open spec fn same_entries<V: PartialEq>(m1: Map<Seq<char>, V>, m2: Map<Seq<char>, V>) -> bool {
    &&& m1.dom() == m2.dom()
    &&& forall|k: Seq<char>| #[trigger] m1.contains_key(k) ==> m1[k].eq_spec(&m2[k])
}

/// A map from string keys to values.
pub struct Compound<V> {
    keys: Vec<String>,
    values: Vec<V>,
}

impl<V> View for Compound<V> {
    type V = Map<Seq<char>, V>;

    closed spec fn view(&self) -> Map<Seq<char>, V> {
        entries_map(self.entries())
    }
}

impl<V> Compound<V> {
    /// The entries, key and value side by side.
    closed spec fn entries(&self) -> Seq<(String, V)> {
        pairs(self.keys@, self.values@)
    }

    #[verifier::type_invariant]
    closed spec fn keys_sorted(&self) -> bool {
        &&& self.keys@.len() == self.values@.len()
        &&& keys_increasing(self.keys@)
    }

    proof fn lemma_entries_sorted(&self)
        requires
            self.keys@.len() == self.values@.len(),
            keys_increasing(self.keys@),
        ensures
            sorted_keys(self.entries()),
            self.entries().len() == self.keys@.len(),
    {
        assert forall|i: int, j: int| 0 <= i < j < self.entries().len() implies bytes_lt(
            key_bytes(#[trigger] self.entries()[i].0@),
            key_bytes(#[trigger] self.entries()[j].0@),
        ) by {
            assert(self.entries()[i].0 == self.keys@[i]);
            assert(self.entries()[j].0 == self.keys@[j]);
        }
    }

    pub fn new() -> (c: Self)
        ensures
            c@ == Map::<Seq<char>, V>::empty(),
    {
        Self { keys: Vec::new(), values: Vec::new() }
    }

    /// An empty compound; the capacity is only a hint.
    pub fn with_capacity(_cap: usize) -> (c: Self)
        ensures
            c@ == Map::<Seq<char>, V>::empty(),
    {
        Self::new()
    }

    pub fn clear(&mut self)
        ensures
            final(self)@ == Map::<Seq<char>, V>::empty(),
    {
        *self = Self::new();
    }

    /// Where `k` stands among the sorted keys: `Ok(i)` when entry `i` has
    /// it, `Err(i)` when it would go before entry `i`.
    fn find(&self, k: &str) -> (res: Result<usize, usize>)
        ensures
            match res {
                Ok(i) => i < self.entries().len() && self.entries()[i as int].0@ == k@,
                Err(i) => {
                    &&& i <= self.entries().len()
                    &&& forall|j: int|
                        0 <= j < i ==> bytes_lt(
                            key_bytes(#[trigger] self.entries()[j].0@),
                            key_bytes(k@),
                        )
                    &&& forall|j: int|
                        i <= j < self.entries().len() ==> bytes_lt(
                            key_bytes(k@),
                            key_bytes(#[trigger] self.entries()[j].0@),
                        )
                },
            },
    {
        proof {
            use_type_invariant(self);
            self.lemma_entries_sorted();
        }
        let kb = k.as_bytes();
        let mut i: usize = 0;
        while i < self.keys.len()
            invariant
                sorted_keys(self.entries()),
                kb@ == key_bytes(k@),
                i <= self.entries().len(),
                forall|j: int|
                    0 <= j < i ==> bytes_lt(key_bytes(#[trigger] self.entries()[j].0@), key_bytes(k@)),
            decreases self.keys.len() - i,
        {
            let eb = self.keys[i].as_str().as_bytes();
            match compare_bytes(eb, kb) {
                KeyOrder::Less => {},
                KeyOrder::Equal => {
                    proof {
                        lemma_key_bytes_injective(self.entries()[i as int].0@, k@);
                    }
                    return Ok(i);
                },
                KeyOrder::Greater => {
                    proof {
                        assert forall|j: int| i <= j < self.entries().len() implies bytes_lt(
                            key_bytes(k@),
                            key_bytes(#[trigger] self.entries()[j].0@),
                        ) by {
                            if j > i {
                                let ei = self.entries()[i as int];
                                assert(bytes_lt(key_bytes(ei.0@), key_bytes(self.entries()[j].0@)));
                                lemma_bytes_lt_transitive(
                                    key_bytes(k@),
                                    key_bytes(ei.0@),
                                    key_bytes(self.entries()[j].0@),
                                );
                            }
                        }
                    }
                    return Err(i);
                },
            }
            i = i + 1;
        }
        Err(i)
    }

    pub fn get(&self, k: &str) -> (res: Option<&V>)
        ensures
            match res {
                Some(v) => self@.contains_key(k@) && self@[k@] == *v,
                None => !self@.contains_key(k@),
            },
    {
        proof {
            use_type_invariant(self);
            self.lemma_entries_sorted();
        }
        match self.find(k) {
            Ok(i) => {
                proof {
                    lemma_sorted_distinct(self.entries());
                    lemma_entries_map_value(self.entries(), i as int);
                }
                Some(&self.values[i])
            },
            Err(_) => {
                proof {
                    self.lemma_absent(k@);
                }
                None
            },
        }
    }

    /// A key that no entry has is not in the map.
    proof fn lemma_absent(&self, k: Seq<char>)
        requires
            forall|j: int|
                0 <= j < self.entries().len() ==> (bytes_lt(
                    key_bytes(#[trigger] self.entries()[j].0@),
                    key_bytes(k),
                ) || bytes_lt(key_bytes(k), key_bytes(self.entries()[j].0@))),
        ensures
            !self@.contains_key(k),
    {
        lemma_entries_map_dom(self.entries(), k);
        if exists|i: int| 0 <= i < self.entries().len() && #[trigger] self.entries()[i].0@ == k {
            let i = choose|i: int| 0 <= i < self.entries().len() && #[trigger] self.entries()[i].0@ == k;
            lemma_bytes_lt_irreflexive(key_bytes(k));
        }
    }

    pub fn contains_key(&self, k: &str) -> (b: bool)
        ensures
            b == self@.contains_key(k@),
    {
        proof {
            use_type_invariant(self);
            self.lemma_entries_sorted();
        }
        match self.find(k) {
            Ok(i) => {
                proof {
                    lemma_sorted_distinct(self.entries());
                    lemma_entries_map_value(self.entries(), i as int);
                }
                true
            },
            Err(_) => {
                proof {
                    self.lemma_absent(k@);
                }
                false
            },
        }
    }

    /// The value under `k`, to be changed in place.
    pub fn get_mut(&mut self, k: &str) -> (res: Option<&mut V>)
        ensures
            match res {
                Some(r) => old(self)@.contains_key(k@) && *r == old(self)@[k@] && final(self)@
                    == old(self)@.insert(k@, *final(r)),
                None => !old(self)@.contains_key(k@) && final(self)@ == old(self)@,
            },
    {
        proof {
            use_type_invariant(&*self);
            self.lemma_entries_sorted();
            lemma_sorted_distinct(self.entries());
        }
        match self.find(k) {
            Ok(i) => {
                proof {
                    lemma_entries_map_value(self.entries(), i as int);
                    let keys = self.keys@;
                    let values = self.values@;
                    assert forall|x: V| #[trigger] entries_map(pairs(keys, values.update(i as int, x)))
                        == entries_map(pairs(keys, values)).insert(k@, x) by {
                        lemma_update_value(keys, values, i as int, x);
                    }
                }
                Some(&mut self.values[i])
            },
            Err(_) => {
                proof {
                    self.lemma_absent(k@);
                }
                None
            },
        }
    }

    /// Inserts `v` under `k`, returning the value `k` had before.
    pub fn insert(&mut self, k: String, v: V) -> (res: Option<V>)
        ensures
            final(self)@ == old(self)@.insert(k@, v),
            final(self)@.len() == old(self)@.len() + if old(self)@.contains_key(k@) {
                0nat
            } else {
                1nat
            },
            match res {
                Some(o) => old(self)@.contains_key(k@) && o == old(self)@[k@],
                None => !old(self)@.contains_key(k@),
            },
    {
        proof {
            use_type_invariant(&*self);
            self.lemma_entries_sorted();
            lemma_sorted_distinct(self.entries());
        }
        let ghost s = self.entries();
        let ghost m = self@;
        proof {
            lemma_entries_map_finite(s);
        }
        let pos = self.find(k.as_str());
        proof {
            match pos {
                Ok(i) => {
                    lemma_entries_map_value(s, i as int);
                    assert(m.contains_key(k@) && m[k@] == s[i as int].1);
                },
                Err(i) => {
                    self.lemma_absent_from(s, k@, i as int);
                },
            }
        }
        let mut taken = Self::new();
        core::mem::swap(&mut taken, self);
        let Compound { mut keys, mut values } = taken;
        match pos {
            Ok(i) => {
                let mut v = v;
                core::mem::swap(&mut values[i], &mut v);
                let ghost s2 = Seq::new(keys@.len(), |j: int| (keys@[j], values@[j]));
                proof {
                    assert(s2 =~= s.update(i as int, (s[i as int].0, values@[i as int])));
                    assert(sorted_keys(s2));
                    lemma_sorted_distinct(s2);
                    let m2 = m.insert(k@, values@[i as int]);
                    assert forall|q: Seq<char>| #[trigger] m2.contains_key(q) implies exists|j: int|
                        0 <= j < s2.len() && #[trigger] s2[j].0@ == q by {
                        if q != k@ {
                            lemma_entries_map_dom(s, q);
                            let j = choose|j: int| 0 <= j < s.len() && #[trigger] s[j].0@ == q;
                            assert(s2[j].0@ == q);
                        } else {
                            assert(s2[i as int].0@ == q);
                        }
                    }
                    assert forall|j: int| 0 <= j < s2.len() implies #[trigger] m2.contains_key(
                        s2[j].0@,
                    ) && m2[s2[j].0@] == s2[j].1 by {
                        if j != i {
                            lemma_entries_map_value(s, j);
                            assert(s[j].0@ != s[i as int].0@);
                        }
                    }
                    lemma_entries_map_char(s2, m2);
                }
                proof {
                    assert forall|a: int, b: int| 0 <= a < b < keys@.len() implies bytes_lt(
                        key_bytes(#[trigger] keys@[a]@),
                        key_bytes(#[trigger] keys@[b]@),
                    ) by {
                        assert(s2[a].0 == keys@[a] && s2[b].0 == keys@[b]);
                    }
                }
                *self = Compound { keys, values };
                proof {
                    assert(self.entries() =~= s2);
                }
                Some(v)
            },
            Err(i) => {
                let ghost kv = (k, v);
                keys.insert(i, k);
                values.insert(i, v);
                let ghost s2 = Seq::new(keys@.len(), |j: int| (keys@[j], values@[j]));
                proof {
                    let e = s2[i as int];
                    assert(e.0@ == k@ && e.1 == v);
                    assert(s2 =~= s.insert(i as int, e));
                    assert forall|a: int, b: int| 0 <= a < b < s2.len() implies bytes_lt(
                        key_bytes(#[trigger] s2[a].0@),
                        key_bytes(#[trigger] s2[b].0@),
                    ) by {
                        if b < i {
                            assert(s2[a] == s[a] && s2[b] == s[b]);
                        } else if b == i {
                            assert(s2[a] == s[a]);
                        } else if a == i {
                            assert(s2[b] == s[b - 1]);
                        } else if a < i {
                            assert(s2[a] == s[a] && s2[b] == s[b - 1]);
                        } else {
                            assert(s2[a] == s[a - 1] && s2[b] == s[b - 1]);
                        }
                    }
                    lemma_sorted_distinct(s2);
                    let m2 = m.insert(k@, v);
                    assert forall|q: Seq<char>| #[trigger] m2.contains_key(q) implies exists|j: int|
                        0 <= j < s2.len() && #[trigger] s2[j].0@ == q by {
                        if q != e.0@ {
                            lemma_entries_map_dom(s, q);
                            let j = choose|j: int| 0 <= j < s.len() && #[trigger] s[j].0@ == q;
                            if j < i {
                                assert(s2[j].0@ == q);
                            } else {
                                assert(s2[j + 1].0@ == q);
                            }
                        } else {
                            assert(s2[i as int].0@ == q);
                        }
                    }
                    assert forall|j: int| 0 <= j < s2.len() implies #[trigger] m2.contains_key(
                        s2[j].0@,
                    ) && m2[s2[j].0@] == s2[j].1 by {
                        if j < i {
                            lemma_entries_map_value(s, j);
                            assert(s2[j] == s[j]);
                            assert(s2[j].0@ != s2[i as int].0@);
                        } else if j > i {
                            lemma_entries_map_value(s, j - 1);
                            assert(s2[j] == s[j - 1]);
                            assert(s2[j].0@ != s2[i as int].0@);
                        }
                    }
                    lemma_entries_map_char(s2, m2);
                }
                proof {
                    assert forall|a: int, b: int| 0 <= a < b < keys@.len() implies bytes_lt(
                        key_bytes(#[trigger] keys@[a]@),
                        key_bytes(#[trigger] keys@[b]@),
                    ) by {
                        assert(s2[a].0 == keys@[a] && s2[b].0 == keys@[b]);
                    }
                }
                *self = Compound { keys, values };
                proof {
                    assert(self.entries() =~= s2);
                }
                None
            },
        }
    }

    /// A key strictly between the keys of the entries is not in the map.
    proof fn lemma_absent_from(&self, s: Seq<(String, V)>, k: Seq<char>, i: int)
        requires
            s == self.entries(),
            0 <= i <= s.len(),
            forall|j: int| 0 <= j < i ==> bytes_lt(key_bytes(#[trigger] s[j].0@), key_bytes(k)),
            forall|j: int| i <= j < s.len() ==> bytes_lt(key_bytes(k), key_bytes(#[trigger] s[j].0@)),
        ensures
            !self@.contains_key(k),
    {
        assert forall|j: int| 0 <= j < s.len() implies (bytes_lt(
            key_bytes(#[trigger] s[j].0@),
            key_bytes(k),
        ) || bytes_lt(key_bytes(k), key_bytes(s[j].0@))) by {
            if j < i {
            } else {
            }
        }
        self.lemma_absent(k);
    }

    /// The value under `k`; the key must be present.
    pub fn index(&self, k: &str) -> (v: &V)
        requires
            self@.contains_key(k@),
        ensures
            *v == self@[k@],
    {
        match self.get(k) {
            Some(v) => v,
            None => unreached(),
        }
    }

    /// The value under `k`, to be changed in place; the key must be present.
    pub fn index_mut(&mut self, k: &str) -> (r: &mut V)
        requires
            old(self)@.contains_key(k@),
        ensures
            *r == old(self)@[k@],
            final(self)@ == old(self)@.insert(k@, *final(r)),
    {
        match self.get_mut(k) {
            Some(r) => r,
            None => unreached(),
        }
    }

    /// The entries in key order (byte order of the keys), each as a key and
    /// its value.
    pub fn iter(&self) -> (res: Vec<(&String, &V)>)
        ensures
            res@.len() == self@.len(),
            forall|i: int|
                0 <= i < res@.len() ==> self@.contains_key((#[trigger] res@[i]).0@) && self@[res@[i].0@]
                    == *res@[i].1,
            forall|i: int, j: int|
                0 <= i < j < res@.len() ==> bytes_lt(
                    key_bytes((#[trigger] res@[i]).0@),
                    key_bytes((#[trigger] res@[j]).0@),
                ),
    {
        proof {
            use_type_invariant(self);
            self.lemma_entries_sorted();
            lemma_sorted_distinct(self.entries());
            lemma_entries_map_len(self.entries());
        }
        let mut res: Vec<(&String, &V)> = Vec::new();
        let mut i: usize = 0;
        while i < self.keys.len()
            invariant
                self.keys@.len() == self.values@.len(),
                sorted_keys(self.entries()),
                i <= self.keys@.len(),
                res@.len() == i,
                forall|j: int|
                    0 <= j < i ==> *(#[trigger] res@[j]).0 == self.keys@[j] && *res@[j].1
                        == self.values@[j],
            decreases self.keys.len() - i,
        {
            res.push((&self.keys[i], &self.values[i]));
            i = i + 1;
        }
        proof {
            assert forall|j: int| 0 <= j < res@.len() implies self@.contains_key(
                (#[trigger] res@[j]).0@,
            ) && self@[res@[j].0@] == *res@[j].1 by {
                lemma_entries_map_value(self.entries(), j);
                assert(self.entries()[j] == (self.keys@[j], self.values@[j]));
            }
            assert forall|a: int, b: int| 0 <= a < b < res@.len() implies bytes_lt(
                key_bytes((#[trigger] res@[a]).0@),
                key_bytes((#[trigger] res@[b]).0@),
            ) by {
                assert(self.entries()[a].0 == self.keys@[a]);
                assert(self.entries()[b].0 == self.keys@[b]);
            }
        }
        res
    }

    /// The compound holding the given pairs; of pairs with the same key, the
    /// last one wins.
    pub fn from_entries(entries: Vec<(String, V)>) -> (c: Self)
        ensures
            c@ == entries_map(entries@),
    {
        let ghost s = entries@;
        let mut c = Self::new();
        for e in it: entries.into_iter()
            invariant
                it.seq() == s,
                c@ == entries_map(s.take(it.index() as int)),
        {
            let (k, v) = e;
            proof {
                assert(s.take(it.index() as int + 1).drop_last() =~= s.take(it.index() as int));
            }
            c.insert(k, v);
        }
        proof {
            assert(s.take(s.len() as int) =~= s);
        }
        c
    }

    /// Whether both compounds hold the same keys with equal values, where
    /// the values' `==` is the one its specification describes.
    pub fn eq(&self, other: &Self) -> (b: bool) where V: PartialEq
        ensures
            V::obeys_eq_spec() ==> (b <==> same_entries(self@, other@)),
    {
        proof {
            use_type_invariant(self);
            use_type_invariant(other);
            self.lemma_entries_sorted();
            other.lemma_entries_sorted();
            lemma_sorted_distinct(self.entries());
            lemma_sorted_distinct(other.entries());
            lemma_entries_map_len(self.entries());
            lemma_entries_map_len(other.entries());
        }
        let ghost s1 = self.entries();
        let ghost s2 = other.entries();
        if self.keys.len() != other.keys.len() {
            return false;
        }
        let mut i: usize = 0;
        while i < self.keys.len()
            invariant
                s1 == self.entries(),
                s2 == other.entries(),
                s1.len() == s2.len(),
                self.keys@.len() == self.values@.len() == s1.len(),
                other.keys@.len() == other.values@.len() == s2.len(),
                sorted_keys(s1),
                sorted_keys(s2),
                distinct_keys(s1),
                distinct_keys(s2),
                i <= s1.len(),
                forall|j: int| 0 <= j < i ==> (#[trigger] s1[j]).0@ == s2[j].0@,
                V::obeys_eq_spec() ==> forall|j: int|
                    0 <= j < i ==> (#[trigger] s1[j]).1.eq_spec(&s2[j].1),
            decreases self.keys.len() - i,
        {
            let ka = self.keys[i].as_str().as_bytes();
            let kb = other.keys[i].as_str().as_bytes();
            let ghost k1 = s1[i as int].0@;
            let ghost k2 = s2[i as int].0@;
            proof {
                assert(s1[i as int].0 == self.keys@[i as int]);
                assert(s2[i as int].0 == other.keys@[i as int]);
            }
            match compare_bytes(ka, kb) {
                KeyOrder::Equal => {
                    proof {
                        lemma_key_bytes_injective(k1, k2);
                    }
                },
                KeyOrder::Less => {
                    proof {
                        lemma_entries_map_value(s1, i as int);
                        assert forall|j: int| 0 <= j < s2.len() implies (bytes_lt(
                            key_bytes(#[trigger] other.entries()[j].0@),
                            key_bytes(k1),
                        ) || bytes_lt(key_bytes(k1), key_bytes(other.entries()[j].0@))) by {
                            if j < i {
                                assert(s1[j].0@ == s2[j].0@);
                            } else if j > i {
                                lemma_bytes_lt_transitive(
                                    key_bytes(k1),
                                    key_bytes(k2),
                                    key_bytes(s2[j].0@),
                                );
                            }
                        }
                        other.lemma_absent(k1);
                    }
                    return false;
                },
                KeyOrder::Greater => {
                    proof {
                        lemma_entries_map_value(s2, i as int);
                        assert forall|j: int| 0 <= j < s1.len() implies (bytes_lt(
                            key_bytes(#[trigger] self.entries()[j].0@),
                            key_bytes(k2),
                        ) || bytes_lt(key_bytes(k2), key_bytes(self.entries()[j].0@))) by {
                            if j < i {
                                assert(s1[j].0@ == s2[j].0@);
                            } else if j > i {
                                lemma_bytes_lt_transitive(
                                    key_bytes(k2),
                                    key_bytes(k1),
                                    key_bytes(s1[j].0@),
                                );
                            }
                        }
                        self.lemma_absent(k2);
                    }
                    return false;
                },
            }
            let same = self.values[i] == other.values[i];
            proof {
                assert(s1[i as int].1 == self.values@[i as int]);
                assert(s2[i as int].1 == other.values@[i as int]);
                lemma_entries_map_value(s1, i as int);
                lemma_entries_map_value(s2, i as int);
            }
            if !same {
                proof {
                    if V::obeys_eq_spec() && same_entries(self@, other@) {
                        assert(self@.contains_key(k1));
                    }
                }
                return false;
            }
            i = i + 1;
        }
        proof {
            assert forall|k: Seq<char>| #[trigger] self@.contains_key(k) <==> other@.contains_key(k) by {
                lemma_entries_map_dom(s1, k);
                lemma_entries_map_dom(s2, k);
                if self@.contains_key(k) {
                    let j = choose|j: int| 0 <= j < s1.len() && #[trigger] s1[j].0@ == k;
                    assert(s2[j].0@ == k);
                }
                if other@.contains_key(k) {
                    let j = choose|j: int| 0 <= j < s2.len() && #[trigger] s2[j].0@ == k;
                    assert(s1[j].0@ == k);
                }
            }
            assert(self@.dom() =~= other@.dom());
            if V::obeys_eq_spec() {
                assert forall|k: Seq<char>| #[trigger] self@.contains_key(k) implies self@[k].eq_spec(
                    &other@[k],
                ) by {
                    lemma_entries_map_dom(s1, k);
                    let j = choose|j: int| 0 <= j < s1.len() && #[trigger] s1[j].0@ == k;
                    lemma_entries_map_value(s1, j);
                    lemma_entries_map_value(s2, j);
                }
            }
        }
        true
    }

    pub fn len(&self) -> (n: usize)
        ensures
            n == self@.len(),
            self@.dom().finite(),
    {
        proof {
            use_type_invariant(self);
            self.lemma_entries_sorted();
            lemma_entries_map_len(self.entries());
        }
        self.keys.len()
    }

    pub fn is_empty(&self) -> (b: bool)
        ensures
            b == (self@.len() == 0),
    {
        proof {
            use_type_invariant(self);
            self.lemma_entries_sorted();
            lemma_entries_map_len(self.entries());
        }
        self.keys.len() == 0
    }
}

/// With all keys different, the map has as many keys as there are entries.
proof fn lemma_entries_map_len<V>(s: Seq<(String, V)>)
    requires
        sorted_keys(s),
    ensures
        entries_map(s).dom().finite(),
        entries_map(s).len() == s.len(),
    decreases s.len(),
{
    if s.len() > 0 {
        let t = s.drop_last();
        assert(sorted_keys(t)) by {
            assert forall|a: int, b: int| 0 <= a < b < t.len() implies bytes_lt(
                key_bytes(#[trigger] t[a].0@),
                key_bytes(#[trigger] t[b].0@),
            ) by {
                assert(t[a] == s[a] && t[b] == s[b]);
            }
        }
        lemma_entries_map_len(t);
        lemma_entries_map_dom(t, s.last().0@);
        if entries_map(t).contains_key(s.last().0@) {
            let i = choose|i: int| 0 <= i < t.len() && #[trigger] t[i].0@ == s.last().0@;
            assert(t[i] == s[i]);
            assert(bytes_lt(key_bytes(s[i].0@), key_bytes(s[s.len() - 1].0@)));
            lemma_bytes_lt_irreflexive(key_bytes(s[i].0@));
        }
    }
}

/// What a read gives back of a write: after `c.insert(k, v)`, `get(k)`
/// finds `v`, and every other key keeps its value or stays absent.
pub proof fn lemma_get_after_insert<V>(c: Compound<V>, k: Seq<char>, v: V, q: Seq<char>)
    ensures
        c@.insert(k, v).contains_key(k),
        c@.insert(k, v)[k] == v,
        q != k ==> (c@.insert(k, v).contains_key(q) <==> c@.contains_key(q)),
        q != k && c@.contains_key(q) ==> c@.insert(k, v)[q] == c@[q],
{
}

/// Inserting a new key into a compound adds one entry; replacing a key
/// keeps the count.
pub proof fn lemma_len_after_insert<V>(c: Compound<V>, k: Seq<char>, v: V)
    ensures
        c@.dom().finite(),
        c@.contains_key(k) ==> c@.insert(k, v).len() == c@.len(),
        !c@.contains_key(k) ==> c@.insert(k, v).len() == c@.len() + 1,
{
    lemma_entries_map_finite(c.entries());
}

} // verus!
