//! Lexicographic order on sequences of integers, and the sorted maps built on it.

use vstd::prelude::*;

verus! {

/// Strict lexicographic order: the first difference decides, a proper prefix comes first.
pub open spec fn lex_lt(a: Seq<int>, b: Seq<int>) -> bool
    decreases a.len(),
{
    if b.len() == 0 {
        false
    } else if a.len() == 0 {
        true
    } else if a[0] != b[0] {
        a[0] < b[0]
    } else {
        lex_lt(a.drop_first(), b.drop_first())
    }
}

/// Nothing comes before itself.
pub proof fn lex_lt_irreflexive(a: Seq<int>)
    ensures
        !lex_lt(a, a),
    decreases a.len(),
{
    if a.len() > 0 {
        lex_lt_irreflexive(a.drop_first());
    }
}

/// The order is transitive.
pub proof fn lex_lt_transitive(a: Seq<int>, b: Seq<int>, c: Seq<int>)
    requires
        lex_lt(a, b),
        lex_lt(b, c),
    ensures
        lex_lt(a, c),
    decreases a.len(),
{
    if a.len() > 0 && a[0] == b[0] && b[0] == c[0] {
        lex_lt_transitive(a.drop_first(), b.drop_first(), c.drop_first());
    }
}

/// Two different sequences are ordered one way or the other.
pub proof fn lex_lt_total(a: Seq<int>, b: Seq<int>)
    ensures
        a == b || lex_lt(a, b) || lex_lt(b, a),
    decreases a.len(),
{
    if a.len() > 0 && b.len() > 0 && a[0] == b[0] {
        lex_lt_total(a.drop_first(), b.drop_first());
        if a.drop_first() == b.drop_first() {
            assert(a =~= seq![a[0]] + a.drop_first());
            assert(b =~= seq![b[0]] + b.drop_first());
        }
    } else if a.len() == 0 && b.len() == 0 {
        assert(a =~= b);
    }
}

/// The code points of a text, the keys by which texts are ordered.
pub open spec fn codes(s: Seq<char>) -> Seq<int> {
    Seq::new(s.len(), |i: int| s[i] as int)
}

/// Texts with the same code points are the same text.
pub proof fn codes_injective(a: Seq<char>, b: Seq<char>)
    requires
        codes(a) == codes(b),
    ensures
        a == b,
{
    assert(codes(a).len() == a.len());
    assert(codes(b).len() == b.len());
    assert forall|i: int| 0 <= i < a.len() implies a[i] == b[i] by {
        assert(codes(a)[i] == a[i] as int);
        assert(codes(b)[i] == b[i] as int);
    }
    assert(a =~= b);
}

/// What a sorted map can be keyed by: a type whose model has an order-defining key.
pub trait Key: View + Sized {
    /// The sequence by which `v` is ordered.
    spec fn key_of(v: Self::V) -> Seq<int>;

    /// Keys tell models apart.
    proof fn key_injective(a: Self::V, b: Self::V)
        requires
            Self::key_of(a) == Self::key_of(b),
        ensures
            a == b,
    ;

    /// Whether `self` comes strictly before `other`.
    fn before(&self, other: &Self) -> (r: bool)
        ensures
            r == lex_lt(Self::key_of(self@), Self::key_of(other@)),
    ;
}

/// A map kept as a vector of entries in strictly increasing key order.
#[derive(Debug, Clone, PartialEq, Eq)]
pub struct SortedMap<K, V> {
    entries: Vec<(K, V)>,
}

impl<K: Key, V: View> View for SortedMap<K, V> {
    type V = Map<K::V, V::V>;

    closed spec fn view(&self) -> Map<K::V, V::V> {
        Map::new(
            |k: K::V| exists|i: int| 0 <= i < self.entries@.len() && #[trigger] self.entries@[i].0@ == k,
            |k: K::V|
                self.entries@[choose|i: int|
                    0 <= i < self.entries@.len() && #[trigger] self.entries@[i].0@ == k].1@,
        )
    }
}

impl<K: Key, V: View> SortedMap<K, V> {
    /// The entries, in order.
    pub closed spec fn items(&self) -> Seq<(K::V, V::V)> {
        Seq::new(self.entries@.len(), |i: int| (self.entries@[i].0@, self.entries@[i].1@))
    }

    /// The keys increase strictly.
    pub open spec fn wf(&self) -> bool {
        forall|i: int, j: int|
            #![trigger self.items()[i], self.items()[j]]
            0 <= i < j < self.items().len() ==> lex_lt(
                K::key_of(self.items()[i].0),
                K::key_of(self.items()[j].0),
            )
    }

    /// What is at position `i` is in the map, and nothing else is.
    pub proof fn lemma_items(&self)
        requires
            self.wf(),
        ensures
            forall|i: int|
                0 <= i < self.items().len() ==> self@.contains_pair(
                    (#[trigger] self.items()[i]).0,
                    self.items()[i].1,
                ),
            forall|k: K::V| #[trigger]
                self@.contains_key(k) ==> exists|i: int|
                    0 <= i < self.items().len() && #[trigger] self.items()[i] == (k, self@[k]),
            forall|i: int, j: int|
                0 <= i < self.items().len() && 0 <= j < self.items().len() && (
                #[trigger] self.items()[i]).0 == (#[trigger] self.items()[j]).0 ==> i == j,
    {
        assert forall|i: int, j: int|
            0 <= i < self.items().len() && 0 <= j < self.items().len() && (
            #[trigger] self.items()[i]).0 == (#[trigger] self.items()[j]).0 implies i == j by {
            lex_lt_irreflexive(K::key_of(self.items()[i].0));
        }
        assert forall|i: int| 0 <= i < self.items().len() implies self@.contains_pair(
            (#[trigger] self.items()[i]).0,
            self.items()[i].1,
        ) by {
            let k = self.items()[i].0;
            assert(self.entries@[i].0@ == k);
            let c = choose|c: int| 0 <= c < self.entries@.len() && #[trigger] self.entries@[c].0@ == k;
            assert(self.items()[c].0 == k);
        }
        assert forall|k: K::V| #[trigger] self@.contains_key(k) implies exists|i: int|
            0 <= i < self.items().len() && #[trigger] self.items()[i] == (k, self@[k]) by {
            let c = choose|c: int| 0 <= c < self.entries@.len() && #[trigger] self.entries@[c].0@ == k;
            assert(self.items()[c] == (k, self@[k]));
        }
    }

    /// The empty map.
    pub fn new() -> (r: Self)
        ensures
            r.wf(),
            r@ == Map::<K::V, V::V>::empty(),
            r.items() == Seq::<(K::V, V::V)>::empty(),
    {
        let r = SortedMap { entries: Vec::new() };
        proof {
            assert(r.items() =~= Seq::<(K::V, V::V)>::empty());
            assert(r@ =~= Map::<K::V, V::V>::empty());
        }
        r
    }

    /// The number of entries.
    pub fn len(&self) -> (r: usize)
        ensures
            r == self.items().len(),
    {
        self.entries.len()
    }

    /// The key at position `i`.
    pub fn key_at(&self, i: usize) -> (r: &K)
        requires
            i < self.items().len(),
        ensures
            r@ == self.items()[i as int].0,
    {
        &self.entries[i].0
    }

    /// The value at position `i`.
    pub fn value_at(&self, i: usize) -> (r: &V)
        requires
            i < self.items().len(),
        ensures
            r@ == self.items()[i as int].1,
    {
        &self.entries[i].1
    }

    /// The first position whose key is not before `k`.
    fn position(&self, k: &K) -> (r: usize)
        requires
            self.wf(),
        ensures
            r <= self.items().len(),
            forall|i: int|
                0 <= i < r ==> lex_lt(
                    K::key_of((#[trigger] self.items()[i]).0),
                    K::key_of(k@),
                ),
            r < self.items().len() ==> !lex_lt(
                K::key_of(self.items()[r as int].0),
                K::key_of(k@),
            ),
    {
        let mut lo: usize = 0;
        let mut hi: usize = self.entries.len();
        while lo < hi
            invariant
                lo <= hi <= self.entries@.len(),
                self.entries@.len() == self.items().len(),
                self.wf(),
                forall|j: int|
                    0 <= j < lo ==> lex_lt(
                        K::key_of((#[trigger] self.items()[j]).0),
                        K::key_of(k@),
                    ),
                hi < self.items().len() ==> !lex_lt(
                    K::key_of(self.items()[hi as int].0),
                    K::key_of(k@),
                ),
            decreases hi - lo,
        {
            let mid = lo + (hi - lo) / 2;
            assert(self.items()[mid as int].0 == self.entries@[mid as int].0@);
            if self.entries[mid].0.before(k) {
                proof {
                    assert forall|j: int| 0 <= j < mid + 1 implies lex_lt(
                        K::key_of((#[trigger] self.items()[j]).0),
                        K::key_of(k@),
                    ) by {
                        if j < mid {
                            lex_lt_transitive(
                                K::key_of(self.items()[j].0),
                                K::key_of(self.items()[mid as int].0),
                                K::key_of(k@),
                            );
                        }
                    }
                }
                lo = mid + 1;
            } else {
                hi = mid;
            }
        }
        lo
    }

    /// The value at `k`, if there is one.
    pub fn get(&self, k: &K) -> (r: Option<&V>)
        requires
            self.wf(),
        ensures
            match r {
                Some(v) => self@.contains_key(k@) && v@ == self@[k@],
                None => !self@.contains_key(k@),
            },
    {
        let at = self.position(k);
        proof {
            self.lemma_items();
            if self@.contains_key(k@) {
                let i = choose|i: int|
                    0 <= i < self.items().len() && #[trigger] self.items()[i] == (k@, self@[k@]);
                lex_lt_irreflexive(K::key_of(k@));
                if at < i {
                    lex_lt_transitive(
                        K::key_of(self.items()[at as int].0),
                        K::key_of(self.items()[i].0),
                        K::key_of(self.items()[i].0),
                    );
                }
                assert(at == i);
            }
        }
        if at < self.entries.len() && !k.before(&self.entries[at].0) {
            proof {
                let m = self.items()[at as int].0;
                lex_lt_total(K::key_of(m), K::key_of(k@));
                K::key_injective(m, k@);
            }
            Some(&self.entries[at].1)
        } else {
            None
        }
    }

    /// Sets the value at `k`.
    pub fn insert(&mut self, k: K, v: V)
        requires
            old(self).wf(),
        ensures
            final(self).wf(),
            final(self)@ == old(self)@.insert(k@, v@),
    {
        let at = self.position(&k);
        let ghost before = *self;
        let ghost kk = K::key_of(k@);
        let ghost kv = k@;
        let ghost vv = v@;
        let replace = at < self.entries.len() && !k.before(&self.entries[at].0);
        if replace {
            proof {
                let m = self.items()[at as int].0;
                lex_lt_total(K::key_of(m), kk);
                K::key_injective(m, k@);
            }
            self.entries.set(at, (k, v));
            proof {
                assert(self.items() =~= before.items().update(at as int, (kv, vv)));
                assert(self.wf());
                self.lemma_items();
                before.lemma_items();
                assert forall|q: K::V| self@.contains_key(q) == before@.insert(kv, vv).contains_key(q) && (
                self@.contains_key(q) ==> self@[q] == before@.insert(kv, vv)[q]) by {
                    if before@.contains_key(q) {
                        let i = choose|i: int|
                            0 <= i < before.items().len() && #[trigger] before.items()[i] == (q, before@[q]);
                        assert(self.items()[i].0 == q);
                    }
                    assert(self.items()[at as int] == (kv, vv));
                    if self@.contains_key(q) {
                        let i = choose|i: int|
                            0 <= i < self.items().len() && #[trigger] self.items()[i] == (q, self@[q]);
                        assert(before.items()[i].0 == q);
                    }
                }
                assert(self@ =~= before@.insert(kv, vv));
            }
        } else {
            proof {
                if at < self.items().len() {
                    lex_lt_total(K::key_of(self.items()[at as int].0), kk);
                }
            }
            self.entries.insert(at, (k, v));
            proof {
                assert(self.items() =~= before.items().insert(at as int, (kv, vv)));
                assert forall|i: int, j: int| 0 <= i < j < self.items().len() implies lex_lt(
                    K::key_of(#[trigger] self.items()[i].0),
                    K::key_of(#[trigger] self.items()[j].0),
                ) by {
                    let oi = if i < at { i } else { i - 1 };
                    let oj = if j < at { j } else { j - 1 };
                    if i == at {
                        if oj > at {
                            assert(before.items()[at as int] == before.items()[at as int]);
                            lex_lt_transitive(
                                kk,
                                K::key_of(before.items()[at as int].0),
                                K::key_of(before.items()[oj].0),
                            );
                        }
                    } else if j == at {
                        assert(self.items()[i] == before.items()[i]);
                    } else {
                        assert(self.items()[i] == before.items()[oi]);
                        assert(self.items()[j] == before.items()[oj]);
                    }
                }
                assert(self.wf());
                self.lemma_items();
                before.lemma_items();
                assert forall|q: K::V| self@.contains_key(q) == before@.insert(kv, vv).contains_key(q) && (
                self@.contains_key(q) ==> self@[q] == before@.insert(kv, vv)[q]) by {
                    if before@.contains_key(q) {
                        let i = choose|i: int|
                            0 <= i < before.items().len() && #[trigger] before.items()[i] == (q, before@[q]);
                        let n = if i < at { i } else { i + 1 };
                        assert(self.items()[n] == before.items()[i]);
                    }
                    assert(self.items()[at as int] == (kv, vv));
                    if self@.contains_key(q) {
                        let i = choose|i: int|
                            0 <= i < self.items().len() && #[trigger] self.items()[i] == (q, self@[q]);
                        if i != at {
                            let n = if i < at { i } else { i - 1 };
                            assert(before.items()[n] == self.items()[i]);
                        }
                    }
                }
                assert(self@ =~= before@.insert(kv, vv));
            }
        }
    }
}

/// Whether `s` lists the entries of `m` in strictly increasing key order.
pub open spec fn lists_map<K: Key, W>(m: Map<K::V, W>, s: Seq<(K::V, W)>) -> bool {
    &&& forall|i: int, j: int|
        #![trigger s[i], s[j]]
        0 <= i < j < s.len() ==> lex_lt(K::key_of(s[i].0), K::key_of(s[j].0))
    &&& forall|i: int| 0 <= i < s.len() ==> m.contains_pair((#[trigger] s[i]).0, s[i].1)
    &&& forall|k: K::V| #[trigger]
        m.contains_key(k) ==> exists|i: int| 0 <= i < s.len() && #[trigger] s[i] == (k, m[k])
}

/// The entries of `m` in key order.
pub open spec fn listing<K: Key, W>(m: Map<K::V, W>) -> Seq<(K::V, W)> {
    choose|s: Seq<(K::V, W)>| lists_map::<K, W>(m, s)
}

proof fn lemma_lists_prefix<K: Key, W>(m: Map<K::V, W>, s: Seq<(K::V, W)>, t: Seq<(K::V, W)>, i: int)
    requires
        lists_map::<K, W>(m, s),
        lists_map::<K, W>(m, t),
        0 <= i <= s.len(),
    ensures
        i <= t.len(),
        s.take(i) == t.take(i),
    decreases i,
{
    if i > 0 {
        lemma_lists_prefix::<K, W>(m, s, t, i - 1);
        let x = s[i - 1];
        assert(m.contains_pair(x.0, x.1));
        assert(m.contains_key(x.0));
        let j = choose|j: int| 0 <= j < t.len() && #[trigger] t[j] == (x.0, m[x.0]);
        lex_lt_irreflexive(K::key_of(x.0));
        if j < i - 1 {
            assert(t.take(i - 1)[j] == s.take(i - 1)[j]);
            assert(s[j] == t[j]);
        }
        assert(j >= i - 1);
        let y = t[i - 1];
        assert(m.contains_pair(y.0, y.1));
        assert(m.contains_key(y.0));
        let k = choose|k: int| 0 <= k < s.len() && #[trigger] s[k] == (y.0, m[y.0]);
        if k < i - 1 {
            assert(t.take(i - 1)[k] == s.take(i - 1)[k]);
            assert(s[k] == t[k]);
            lex_lt_irreflexive(K::key_of(y.0));
        }
        assert(k >= i - 1);
        if j > i - 1 {
            assert(lex_lt(K::key_of(y.0), K::key_of(x.0)));
            if k > i - 1 {
                assert(lex_lt(K::key_of(x.0), K::key_of(y.0)));
                lex_lt_transitive(K::key_of(x.0), K::key_of(y.0), K::key_of(x.0));
            } else {
                assert(x == y);
            }
            assert(false);
        }
        assert(s[i - 1] == t[i - 1]);
        assert(s.take(i) =~= s.take(i - 1).push(x));
        assert(t.take(i) =~= t.take(i - 1).push(y));
    }
}

/// A map has one listing.
pub proof fn listing_unique<K: Key, W>(m: Map<K::V, W>, s: Seq<(K::V, W)>)
    requires
        lists_map::<K, W>(m, s),
    ensures
        listing::<K, W>(m) == s,
{
    let t = listing::<K, W>(m);
    lemma_lists_prefix::<K, W>(m, s, t, s.len() as int);
    lemma_lists_prefix::<K, W>(m, t, s, t.len() as int);
    assert(s.take(s.len() as int) =~= s);
    assert(t.take(t.len() as int) =~= t);
}

impl<K: Key, V: View> SortedMap<K, V> {
    /// The entries are the listing of the map.
    pub proof fn items_are_listing(&self)
        requires
            self.wf(),
        ensures
            self.items() == listing::<K, V::V>(self@),
    {
        self.lemma_items();
        assert(lists_map::<K, V::V>(self@, self.items()));
        listing_unique::<K, V::V>(self@, self.items());
    }
}

} // verus!
