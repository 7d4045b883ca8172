//! Stable sorting.

use vstd::prelude::*;
use crate::codec::views;
use crate::order::{codes, lex_lt, lex_lt_irreflexive, lex_lt_total, lex_lt_transitive};
use crate::text::{char_nonneg, text_before};

verus! {

/// A value with a place in an order. Two values may share a place.
pub trait Rank: View + Sized {
    /// The sequence by which `v` is ordered.
    spec fn rank_of(v: Self::V) -> Seq<int>;

    /// Whether `self` comes strictly before `other`.
    fn ranks_before(&self, other: &Self) -> (r: bool)
        ensures
            r == lex_lt(Self::rank_of(self@), Self::rank_of(other@)),
    ;
}

/// The number of items at the start of `s` that come strictly before `x`.
pub open spec fn slot<T: Rank>(s: Seq<T::V>, x: T::V) -> int
    decreases s.len(),
{
    if s.len() == 0 || !lex_lt(T::rank_of(s[0]), T::rank_of(x)) {
        0
    } else {
        1 + slot::<T>(s.drop_first(), x)
    }
}

/// `s` in order; items that share a place keep their order.
pub open spec fn sorted<T: Rank>(s: Seq<T::V>) -> Seq<T::V>
    decreases s.len(),
{
    if s.len() == 0 {
        s
    } else {
        let rest = sorted::<T>(s.drop_first());
        rest.insert(slot::<T>(rest, s[0]), s[0])
    }
}

/// Whether no item comes before an earlier one.
pub open spec fn ordered<T: Rank>(s: Seq<T::V>) -> bool {
    forall|i: int, j: int|
        0 <= i <= j < s.len() ==> !lex_lt(T::rank_of(#[trigger] s[j]), T::rank_of(#[trigger] s[i]))
}

proof fn lemma_slot_range<T: Rank>(s: Seq<T::V>, x: T::V)
    ensures
        0 <= slot::<T>(s, x) <= s.len(),
    decreases s.len(),
{
    if s.len() > 0 && lex_lt(T::rank_of(s[0]), T::rank_of(x)) {
        lemma_slot_range::<T>(s.drop_first(), x);
    }
}

proof fn lemma_slot<T: Rank>(s: Seq<T::V>, x: T::V)
    requires
        ordered::<T>(s),
    ensures
        0 <= slot::<T>(s, x) <= s.len(),
        forall|i: int|
            0 <= i < slot::<T>(s, x) ==> lex_lt(T::rank_of(#[trigger] s[i]), T::rank_of(x)),
        forall|i: int|
            slot::<T>(s, x) <= i < s.len() ==> !lex_lt(T::rank_of(#[trigger] s[i]), T::rank_of(x)),
    decreases s.len(),
{
    if s.len() == 0 {
    } else if !lex_lt(T::rank_of(s[0]), T::rank_of(x)) {
        assert forall|i: int| 0 <= i < s.len() implies !lex_lt(
            T::rank_of(#[trigger] s[i]),
            T::rank_of(x),
        ) by {
            let a = T::rank_of(s[0]);
            let b = T::rank_of(s[i]);
            assert(!lex_lt(b, a));
            if lex_lt(b, T::rank_of(x)) {
                lex_lt_total(a, b);
                if lex_lt(a, b) {
                    lex_lt_transitive(a, b, T::rank_of(x));
                }
            }
        }
    } else {
        let t = s.drop_first();
        assert forall|i: int, j: int| 0 <= i <= j < t.len() implies !lex_lt(
            T::rank_of(#[trigger] t[j]),
            T::rank_of(#[trigger] t[i]),
        ) by {
            assert(t[j] == s[j + 1] && t[i] == s[i + 1]);
        }
        lemma_slot::<T>(t, x);
        let k = slot::<T>(s, x);
        assert forall|i: int| 0 <= i < k implies lex_lt(T::rank_of(#[trigger] s[i]), T::rank_of(x)) by {
            if i > 0 {
                assert(s[i] == t[i - 1]);
            }
        }
        assert forall|i: int| k <= i < s.len() implies !lex_lt(
            T::rank_of(#[trigger] s[i]),
            T::rank_of(x),
        ) by {
            assert(s[i] == t[i - 1]);
        }
    }
}

/// Sorting orders the items, neither adds nor drops one.
pub proof fn sorting_sorts<T: Rank>(s: Seq<T::V>)
    ensures
        ordered::<T>(sorted::<T>(s)),
        sorted::<T>(s).to_multiset() == s.to_multiset(),
        sorted::<T>(s).len() == s.len(),
    decreases s.len(),
{
    broadcast use vstd::seq_lib::group_to_multiset_ensures;

    if s.len() > 0 {
        let rest = sorted::<T>(s.drop_first());
        let x = s[0];
        let at = slot::<T>(rest, x);
        sorting_sorts::<T>(s.drop_first());
        lemma_slot::<T>(rest, x);
        let r = rest.insert(at, x);
        assert forall|i: int, j: int| 0 <= i <= j < r.len() implies !lex_lt(
            T::rank_of(#[trigger] r[j]),
            T::rank_of(#[trigger] r[i]),
        ) by {
            let oi = if i < at { i } else { i - 1 };
            let oj = if j < at { j } else { j - 1 };
            lex_lt_irreflexive(T::rank_of(r[i]));
            if i == j {
            } else if i == at {
                assert(r[j] == rest[oj]);
            } else if j == at {
                assert(r[i] == rest[oi]);
                if lex_lt(T::rank_of(x), T::rank_of(r[i])) {
                    lex_lt_transitive(T::rank_of(r[i]), T::rank_of(x), T::rank_of(r[i]));
                }
            } else {
                assert(r[i] == rest[oi] && r[j] == rest[oj]);
            }
        }
        vstd::seq_lib::to_multiset_insert(rest, at, x);
        assert(s =~= s.drop_first().insert(0, x));
        vstd::seq_lib::to_multiset_insert(s.drop_first(), 0, x);
        assert(r.to_multiset() =~= s.to_multiset());
    }
}

/// Where no two values share a place, what a sequence holds determines its order.
pub proof fn ordered_unique<T: Rank>(s: Seq<T::V>, t: Seq<T::V>)
    requires
        ordered::<T>(s),
        ordered::<T>(t),
        s.to_multiset() == t.to_multiset(),
        forall|a: T::V, b: T::V| #[trigger] T::rank_of(a) == #[trigger] T::rank_of(b) ==> a == b,
    ensures
        s == t,
    decreases s.len(),
{
    broadcast use vstd::seq_lib::group_to_multiset_ensures;

    s.to_multiset_ensures();
    t.to_multiset_ensures();
    assert(s.len() == t.len());
    if s.len() > 0 {
        assert(s.to_multiset().count(s[0]) > 0) by {
            assert(s.contains(s[0]));
        }
        assert(t.to_multiset().count(t[0]) > 0) by {
            assert(t.contains(t[0]));
        }
        assert(t.contains(s[0]));
        assert(s.contains(t[0]));
        let j = choose|j: int| 0 <= j < t.len() && t[j] == s[0];
        let i = choose|i: int| 0 <= i < s.len() && s[i] == t[0];
        assert(!lex_lt(T::rank_of(t[j]), T::rank_of(t[0])));
        assert(!lex_lt(T::rank_of(s[i]), T::rank_of(s[0])));
        lex_lt_total(T::rank_of(s[0]), T::rank_of(t[0]));
        assert(s[0] == t[0]);
        let u = s.drop_first();
        let w = t.drop_first();
        assert(u =~= s.remove(0));
        assert(w =~= t.remove(0));
        assert forall|a: int, b: int| 0 <= a <= b < u.len() implies !lex_lt(
            T::rank_of(#[trigger] u[b]),
            T::rank_of(#[trigger] u[a]),
        ) by {
            assert(u[b] == s[b + 1] && u[a] == s[a + 1]);
        }
        assert forall|a: int, b: int| 0 <= a <= b < w.len() implies !lex_lt(
            T::rank_of(#[trigger] w[b]),
            T::rank_of(#[trigger] w[a]),
        ) by {
            assert(w[b] == t[b + 1] && w[a] == t[a + 1]);
        }
        ordered_unique::<T>(u, w);
        assert(s =~= seq![s[0]] + u);
        assert(t =~= seq![t[0]] + w);
    } else {
        assert(s =~= t);
    }
}

/// Where no two values share a place, sorting forgets the order that the items came in.
pub proof fn sorting_forgets_order<T: Rank>(s: Seq<T::V>, t: Seq<T::V>)
    requires
        s.to_multiset() == t.to_multiset(),
        forall|a: T::V, b: T::V| #[trigger] T::rank_of(a) == #[trigger] T::rank_of(b) ==> a == b,
    ensures
        sorted::<T>(s) == sorted::<T>(t),
{
    sorting_sorts::<T>(s);
    sorting_sorts::<T>(t);
    ordered_unique::<T>(sorted::<T>(s), sorted::<T>(t));
}

/// Sorts `v`.
pub fn sort_items<T: Rank>(v: Vec<T>) -> (r: Vec<T>)
    ensures
        views(r@) == sorted::<T>(views(v@)),
{
    let ghost all = views(v@);
    let mut left = v;
    let mut out: Vec<T> = Vec::new();
    assert(views(out@) =~= all.skip(all.len() as int));
    while left.len() > 0
        invariant
            left@.len() <= all.len(),
            views(left@) == all.take(left@.len() as int),
            views(out@) == sorted::<T>(all.skip(left@.len() as int)),
        decreases left@.len(),
    {
        let ghost n = left@.len() as int;
        let ghost before = left@;
        let x = match left.pop() {
            Some(x) => x,
            None => {
                return out;
            },
        };
        let ghost xv = x@;
        let ghost cur = views(out@);
        proof {
            assert(views(before)[n - 1] == xv);
            assert(all.take(n)[n - 1] == all[n - 1]);
            assert(all.skip(n - 1)[0] == xv);
            assert(all.skip(n - 1).drop_first() =~= all.skip(n));
            assert(views(left@) =~= all.take(n - 1)) by {
                assert forall|i: int| 0 <= i < n - 1 implies views(left@)[i] == all.take(n - 1)[i] by {
                    assert(views(before)[i] == all.take(n)[i]);
                }
            }
        }
        let mut at: usize = 0;
        assert(cur.skip(0) =~= cur);
        while at < out.len() && out[at].ranks_before(&x)
            invariant
                at <= out@.len(),
                cur == views(out@),
                xv == x@,
                slot::<T>(cur, xv) == at + slot::<T>(cur.skip(at as int), xv),
            decreases out@.len() - at,
        {
            assert(cur.skip(at as int)[0] == cur[at as int]);
            assert(cur.skip(at as int).drop_first() =~= cur.skip(at as int + 1));
            at += 1;
        }
        proof {
            if at < out@.len() {
                assert(cur.skip(at as int)[0] == cur[at as int]);
            }
            assert(slot::<T>(cur, xv) == at);
        }
        out.insert(at, x);
        assert(views(out@) =~= cur.insert(at as int, xv));
    }
    assert(all.skip(0) =~= all);
    out
}

// ---- Texts ----

impl Rank for String {
    open spec fn rank_of(v: Seq<char>) -> Seq<int> {
        codes(v)
    }

    fn ranks_before(&self, other: &String) -> (r: bool) {
        text_before(self.as_str(), other.as_str())
    }
}

/// A text as the start of a longer key: it ends with 0 and its code points are shifted by one,
/// so that a text that starts another comes first.
pub open spec fn closed_text(s: Seq<char>) -> Seq<int> {
    Seq::new(s.len(), |i: int| s[i] as int + 1) + seq![0int]
}

/// A key that starts with a text is ordered by the text, then by what follows.
pub proof fn closed_text_order(a: Seq<char>, x: Seq<int>, b: Seq<char>, y: Seq<int>)
    ensures
        lex_lt(closed_text(a) + x, closed_text(b) + y) == (if a == b {
            lex_lt(x, y)
        } else {
            lex_lt(codes(a), codes(b))
        }),
    decreases a.len(),
{
    let p = closed_text(a) + x;
    let q = closed_text(b) + y;
    if a.len() == 0 {
        assert(p[0] == 0);
        assert(p.drop_first() =~= x);
        if b.len() == 0 {
            assert(a =~= b);
            assert(q.drop_first() =~= y);
        } else {
            char_nonneg(b[0]);
            assert(q[0] == b[0] as int + 1);
            assert(codes(a).len() == 0);
            assert(codes(b).len() > 0);
        }
    } else if b.len() == 0 {
        char_nonneg(a[0]);
        assert(p[0] == a[0] as int + 1);
        assert(q[0] == 0);
        assert(codes(b).len() == 0);
    } else {
        assert(p[0] == a[0] as int + 1);
        assert(q[0] == b[0] as int + 1);
        assert(codes(a)[0] == a[0] as int);
        assert(codes(b)[0] == b[0] as int);
        let ta = a.drop_first();
        let tb = b.drop_first();
        closed_text_order(ta, x, tb, y);
        assert(p.drop_first() =~= closed_text(ta) + x);
        assert(q.drop_first() =~= closed_text(tb) + y);
        assert(codes(a).drop_first() =~= codes(ta));
        assert(codes(b).drop_first() =~= codes(tb));
        if a[0] == b[0] {
            assert(a == b <==> ta == tb) by {
                if ta == tb {
                    assert(a =~= seq![a[0]] + ta);
                    assert(b =~= seq![b[0]] + tb);
                }
            }
        }
    }
}

} // verus!
