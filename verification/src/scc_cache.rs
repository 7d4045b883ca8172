//! The cache of analysis results, one entry for each component of the call graph.
//!
//! A key is a digest over the members' code and the callees' keys, so that it changes with
//! anything that the results depend on. A hit replays the results without encoding or solving
//! anything.

use vstd::prelude::*;
use vstd::utf8::encode_utf8;
use crate::checker::{findings_v, Finding, FindingV};
use crate::codec::{
    code_round_trip, le_bytes, list_bytes, list_encodable, list_round_trip, opt_view, pow256,
    pow256_values, put_le, put_list, put_opt, put_utf8, read_code, read_list, take_list, take_u8,
    views, Codec, Items, Maybe,
};
use crate::digest::{
    blake3_digest, byte_ints, digest, le_splits, put_field, text_field, text_field_splits,
};
use crate::ir::{Program, Sccs};
use crate::order::lex_lt;
use crate::records::lemma_append;
use crate::sort::{
    closed_text, closed_text_order, sort_items, sorted, sorting_forgets_order, sorting_sorts, Rank,
};
use crate::store::{entry_path_of, stores, Store, Write};
use crate::summary::{Summary, SummaryV};
use crate::term_codec::TERM_CODEC_VERSION;
use crate::text::text_before;

verus! {

/// Changes with the format of entries and with the meaning of what is analysed.
pub const SCC_CACHE_VERSION: u32 = 1;

/// The layer of analysis results.
pub const LAYER: &'static str = "scc";

/// The version of the format of an entry.
pub const SCC_ENTRY_FORMAT: u8 = 1;

/// A solver's limits.
#[derive(Debug, Clone, Copy, PartialEq, Eq, Structural)]
pub struct SolverLimits {
    pub timeout_ms: u32,
    pub mem_mb: u32,
}

/// What all results depend on, besides the program.
#[derive(Debug, PartialEq, Eq)]
pub struct CacheConfigKey {
    pub solver_identity: String,
    pub findings_identity: String,
    pub infer_limits: SolverLimits,
    pub findings_limits: SolverLimits,
    pub widen_after: u32,
    /// The checkers, by name and version.
    pub checkers: Vec<(String, u32)>,
    pub annotation_version: u32,
}

/// The model of a [`CacheConfigKey`].
pub struct CacheConfigV {
    pub solver_identity: Seq<char>,
    pub findings_identity: Seq<char>,
    pub infer_limits: SolverLimits,
    pub findings_limits: SolverLimits,
    pub widen_after: u32,
    pub checkers: Seq<(Seq<char>, u32)>,
    pub annotation_version: u32,
}

impl View for CacheConfigKey {
    type V = CacheConfigV;

    open spec fn view(&self) -> CacheConfigV {
        CacheConfigV {
            solver_identity: self.solver_identity@,
            findings_identity: self.findings_identity@,
            infer_limits: self.infer_limits,
            findings_limits: self.findings_limits,
            widen_after: self.widen_after,
            checkers: views(self.checkers@),
            annotation_version: self.annotation_version,
        }
    }
}

impl Rank for (String, u32) {
    open spec fn rank_of(v: (Seq<char>, u32)) -> Seq<int> {
        closed_text(v.0) + seq![v.1 as int]
    }

    fn ranks_before(&self, other: &(String, u32)) -> (r: bool) {
        proof {
            closed_text_order(self.0@, seq![self.1 as int], other.0@, seq![other.1 as int]);
            reveal_with_fuel(lex_lt, 2);
        }
        if self.0 == other.0 {
            self.1 < other.1
        } else {
            text_before(self.0.as_str(), other.0.as_str())
        }
    }
}

/// The bytes of checkers.
pub open spec fn checkers_bytes(s: Seq<(Seq<char>, u32)>) -> Seq<u8>
    decreases s.len(),
{
    if s.len() == 0 {
        Seq::empty()
    } else {
        text_field(s[0].0) + (le_bytes(4, s[0].1 as nat) + checkers_bytes(s.drop_first()))
    }
}

/// The bytes of a solver's limits.
pub open spec fn limits_bytes(l: SolverLimits) -> Seq<u8> {
    le_bytes(4, l.timeout_ms as nat) + le_bytes(4, l.mem_mb as nat)
}

/// The bytes whose digest is the salt of all keys. The checkers are taken in the order of
/// their names.
pub open spec fn salt_bytes(v: CacheConfigV) -> Seq<u8> {
    salt_head() + (text_field(v.solver_identity) + (text_field(v.findings_identity) + (limits_bytes(
        v.infer_limits,
    ) + (limits_bytes(v.findings_limits) + (le_bytes(4, v.widen_after as nat) + (le_bytes(
        4,
        v.annotation_version as nat,
    ) + checkers_bytes(sorted::<(String, u32)>(v.checkers))))))))
}

/// What every salt starts with.
pub open spec fn salt_head() -> Seq<u8> {
    encode_utf8("goverify-scc-salt\0"@) + le_bytes(4, SCC_CACHE_VERSION as nat) + seq![
        TERM_CODEC_VERSION,
    ]
}

fn put_limits(out: &mut Vec<u8>, l: SolverLimits)
    ensures
        final(out)@ == old(out)@ + limits_bytes(l),
{
    let ghost start = out@;
    put_le(out, 4, l.timeout_ms as u128);
    put_le(out, 4, l.mem_mb as u128);
    assert(out@ =~= start + limits_bytes(l));
}

fn copy_checkers(v: &Vec<(String, u32)>) -> (r: Vec<(String, u32)>)
    ensures
        views(r@) == views(v@),
{
    let mut out: Vec<(String, u32)> = Vec::new();
    let mut i: usize = 0;
    while i < v.len()
        invariant
            i <= v@.len(),
            out@.len() == i,
            forall|j: int| 0 <= j < i ==> (#[trigger] out@[j])@ == v@[j]@,
        decreases v@.len() - i,
    {
        out.push((v[i].0.clone(), v[i].1));
        i += 1;
    }
    assert(views(out@) =~= views(v@));
    out
}

fn put_checkers(out: &mut Vec<u8>, v: &Vec<(String, u32)>)
    ensures
        final(out)@ == old(out)@ + checkers_bytes(views(v@)),
{
    let ghost start = out@;
    let ghost all = views(v@);
    let mut i: usize = 0;
    assert(all.skip(0) =~= all);
    while i < v.len()
        invariant
            i <= v@.len(),
            all == views(v@),
            start + checkers_bytes(all) == out@ + checkers_bytes(all.skip(i as int)),
        decreases v@.len() - i,
    {
        let ghost before = out@;
        put_field(out, v[i].0.as_str());
        put_le(out, 4, v[i].1 as u128);
        proof {
            let rest = all.skip(i as int);
            assert(rest[0] == v@[i as int]@);
            assert(rest.drop_first() =~= all.skip(i as int + 1));
            assert(before + checkers_bytes(rest) =~= out@ + checkers_bytes(all.skip(i as int + 1)));
        }
        i += 1;
    }
    assert(all.skip(all.len() as int).len() == 0);
    assert(out@ + checkers_bytes(all.skip(i as int)) =~= out@);
}

proof fn lemma_checkers_split(a: Seq<(Seq<char>, u32)>, b: Seq<(Seq<char>, u32)>)
    requires
        checkers_bytes(a) == checkers_bytes(b),
        forall|i: int| 0 <= i < a.len() ==> encode_utf8((#[trigger] a[i]).0).len() < pow256(8),
        forall|i: int| 0 <= i < b.len() ==> encode_utf8((#[trigger] b[i]).0).len() < pow256(8),
    ensures
        a == b,
    decreases a.len(),
{
    pow256_values();
    if a.len() == 0 {
        if b.len() > 0 {
            crate::codec::le_bytes_len(8, encode_utf8(b[0].0).len());
            assert(checkers_bytes(b).len() >= 8);
        }
        assert(a =~= b);
    } else if b.len() == 0 {
        crate::codec::le_bytes_len(8, encode_utf8(a[0].0).len());
        assert(checkers_bytes(a).len() >= 8);
    } else {
        let ta = checkers_bytes(a.drop_first());
        let tb = checkers_bytes(b.drop_first());
        text_field_splits(
            a[0].0,
            le_bytes(4, a[0].1 as nat) + ta,
            b[0].0,
            le_bytes(4, b[0].1 as nat) + tb,
        );
        le_splits(4, a[0].1 as nat, b[0].1 as nat, ta, tb);
        assert forall|i: int| 0 <= i < a.drop_first().len() implies encode_utf8(
            (#[trigger] a.drop_first()[i]).0,
        ).len() < pow256(8) by {
            assert(a.drop_first()[i] == a[i + 1]);
        }
        assert forall|i: int| 0 <= i < b.drop_first().len() implies encode_utf8(
            (#[trigger] b.drop_first()[i]).0,
        ).len() < pow256(8) by {
            assert(b.drop_first()[i] == b[i + 1]);
        }
        lemma_checkers_split(a.drop_first(), b.drop_first());
        assert(a =~= seq![a[0]] + a.drop_first());
        assert(b =~= seq![b[0]] + b.drop_first());
    }
}

/// Whether the texts have lengths that fit in 8 bytes.
pub open spec fn config_fits(v: CacheConfigV) -> bool {
    &&& encode_utf8(v.solver_identity).len() < pow256(8)
    &&& encode_utf8(v.findings_identity).len() < pow256(8)
    &&& forall|i: int|
        0 <= i < v.checkers.len() ==> encode_utf8((#[trigger] v.checkers[i]).0).len() < pow256(8)
}

proof fn lemma_limits_split(a: SolverLimits, x: Seq<u8>, b: SolverLimits, y: Seq<u8>)
    requires
        limits_bytes(a) + x == limits_bytes(b) + y,
    ensures
        a == b,
        x == y,
{
    pow256_values();
    let ma = le_bytes(4, a.mem_mb as nat);
    let mb = le_bytes(4, b.mem_mb as nat);
    assert(limits_bytes(a) + x =~= le_bytes(4, a.timeout_ms as nat) + (ma + x));
    assert(limits_bytes(b) + y =~= le_bytes(4, b.timeout_ms as nat) + (mb + y));
    le_splits(4, a.timeout_ms as nat, b.timeout_ms as nat, ma + x, mb + y);
    le_splits(4, a.mem_mb as nat, b.mem_mb as nat, x, y);
}

proof fn lemma_sorted_fits(v: CacheConfigV)
    requires
        config_fits(v),
    ensures
        ({
            let s = sorted::<(String, u32)>(v.checkers);
            forall|i: int| 0 <= i < s.len() ==> encode_utf8((#[trigger] s[i]).0).len() < pow256(8)
        }),
{
    let s = sorted::<(String, u32)>(v.checkers);
    sorting_sorts::<(String, u32)>(v.checkers);
    s.to_multiset_ensures();
    v.checkers.to_multiset_ensures();
    assert forall|i: int| 0 <= i < s.len() implies encode_utf8((#[trigger] s[i]).0).len()
        < pow256(8) by {
        assert(s.contains(s[i]));
        assert(s.to_multiset().count(s[i]) > 0);
        assert(v.checkers.contains(s[i]));
    }
}

/// Configurations that differ in anything but the order of the checkers never give the same
/// bytes to digest.
pub proof fn salt_bytes_injective(a: CacheConfigV, b: CacheConfigV)
    requires
        config_fits(a),
        config_fits(b),
        salt_bytes(a) == salt_bytes(b),
    ensures
        a.solver_identity == b.solver_identity,
        a.findings_identity == b.findings_identity,
        a.infer_limits == b.infer_limits,
        a.findings_limits == b.findings_limits,
        a.widen_after == b.widen_after,
        a.annotation_version == b.annotation_version,
        a.checkers.to_multiset() == b.checkers.to_multiset(),
{
    pow256_values();
    let ca = checkers_bytes(sorted::<(String, u32)>(a.checkers));
    let cb = checkers_bytes(sorted::<(String, u32)>(b.checkers));
    let a6 = le_bytes(4, a.annotation_version as nat) + ca;
    let b6 = le_bytes(4, b.annotation_version as nat) + cb;
    let a5 = le_bytes(4, a.widen_after as nat) + a6;
    let b5 = le_bytes(4, b.widen_after as nat) + b6;
    let a4 = limits_bytes(a.findings_limits) + a5;
    let b4 = limits_bytes(b.findings_limits) + b5;
    let a3 = limits_bytes(a.infer_limits) + a4;
    let b3 = limits_bytes(b.infer_limits) + b4;
    let a2 = text_field(a.findings_identity) + a3;
    let b2 = text_field(b.findings_identity) + b3;
    let a1 = text_field(a.solver_identity) + a2;
    let b1 = text_field(b.solver_identity) + b2;
    let h = salt_head();
    assert((h + a1).skip(h.len() as int) =~= a1);
    assert((h + b1).skip(h.len() as int) =~= b1);
    text_field_splits(a.solver_identity, a2, b.solver_identity, b2);
    text_field_splits(a.findings_identity, a3, b.findings_identity, b3);
    lemma_limits_split(a.infer_limits, a4, b.infer_limits, b4);
    lemma_limits_split(a.findings_limits, a5, b.findings_limits, b5);
    le_splits(4, a.widen_after as nat, b.widen_after as nat, a6, b6);
    le_splits(4, a.annotation_version as nat, b.annotation_version as nat, ca, cb);
    lemma_sorted_fits(a);
    lemma_sorted_fits(b);
    lemma_checkers_split(
        sorted::<(String, u32)>(a.checkers),
        sorted::<(String, u32)>(b.checkers),
    );
    sorting_sorts::<(String, u32)>(a.checkers);
    sorting_sorts::<(String, u32)>(b.checkers);
}

// ---- Keys ----

/// Digests one after another.
pub open spec fn digests_bytes(s: Seq<Seq<u8>>) -> Seq<u8>
    decreases s.len(),
{
    if s.len() == 0 {
        Seq::empty()
    } else {
        s[0] + digests_bytes(s.drop_first())
    }
}

/// What every key starts with.
pub open spec fn key_head() -> Seq<u8> {
    encode_utf8("goverify-scc-key\0"@)
}

/// The bytes whose digest is the key of a component with these members and callees. Both are
/// sorted: which number a function or a component has never shows.
pub open spec fn scc_key_bytes(salt: Seq<u8>, members: Seq<Seq<u8>>, callees: Seq<Seq<u8>>) -> Seq<
    u8,
> {
    let m = sorted::<[u8; 32]>(members);
    let c = sorted::<[u8; 32]>(callees);
    key_head() + (salt + (le_bytes(8, m.len()) + (digests_bytes(m) + (le_bytes(8, c.len())
        + digests_bytes(c)))))
}

/// The digests of the members of component `si`.
pub open spec fn member_hashes(p: &Program, sccs: &Sccs, si: int) -> Seq<Seq<u8>> {
    Seq::new(sccs.schedule@[si]@.len(), |j: int| p.hash_of(sccs.schedule@[si]@[j]))
}

/// The keys of the callees of component `si`.
pub open spec fn callee_keys(sccs: &Sccs, si: int, keys: Seq<Seq<u8>>) -> Seq<Seq<u8>> {
    Seq::new(sccs.callee_sccs@[si]@.len(), |j: int| keys[sccs.callee_sccs@[si]@[j] as int])
}

/// The keys of the first `n` components.
pub open spec fn keys_upto(salt: Seq<u8>, p: &Program, sccs: &Sccs, n: nat) -> Seq<Seq<u8>>
    decreases n,
{
    if n == 0 {
        Seq::empty()
    } else {
        let before = keys_upto(salt, p, sccs, (n - 1) as nat);
        before.push(
            blake3_digest(
                scc_key_bytes(salt, member_hashes(p, sccs, n - 1), callee_keys(sccs, n - 1, before)),
            ),
        )
    }
}

proof fn lemma_keys_len(salt: Seq<u8>, p: &Program, sccs: &Sccs, n: nat)
    ensures
        keys_upto(salt, p, sccs, n).len() == n,
    decreases n,
{
    if n > 0 {
        lemma_keys_len(salt, p, sccs, (n - 1) as nat);
    }
}

fn put_digests(out: &mut Vec<u8>, v: &Vec<[u8; 32]>)
    ensures
        final(out)@ == old(out)@ + digests_bytes(views(v@)),
{
    let ghost start = out@;
    let ghost all = views(v@);
    let mut i: usize = 0;
    assert(all.skip(0) =~= all);
    while i < v.len()
        invariant
            i <= v@.len(),
            all == views(v@),
            start + digests_bytes(all) == out@ + digests_bytes(all.skip(i as int)),
        decreases v@.len() - i,
    {
        let ghost before = out@;
        put_digest(out, &v[i]);
        proof {
            let rest = all.skip(i as int);
            assert(rest[0] == v@[i as int]@);
            assert(rest.drop_first() =~= all.skip(i as int + 1));
            assert(before + digests_bytes(rest) =~= out@ + digests_bytes(all.skip(i as int + 1)));
        }
        i += 1;
    }
    assert(all.skip(all.len() as int).len() == 0);
    assert(out@ + digests_bytes(all.skip(i as int)) =~= out@);
}

fn put_digest(out: &mut Vec<u8>, d: &[u8; 32])
    ensures
        final(out)@ == old(out)@ + d@,
{
    let ghost start = out@;
    let mut i: usize = 0;
    assert(start + d@.take(0) =~= start);
    while i < 32
        invariant
            i <= 32,
            d@.len() == 32,
            out@ == start + d@.take(i as int),
        decreases 32 - i,
    {
        out.push(d[i]);
        i += 1;
        assert(start + d@.take(i as int) =~= (start + d@.take(i - 1)).push(d@[i - 1]));
    }
    assert(d@.take(32) =~= d@);
}

proof fn lemma_byte_ranks()
    ensures
        forall|a: Seq<u8>, b: Seq<u8>| #[trigger]
            <[u8; 32] as Rank>::rank_of(a) == #[trigger] <[u8; 32] as Rank>::rank_of(b) ==> a == b,
{
    assert forall|a: Seq<u8>, b: Seq<u8>| #[trigger]
        <[u8; 32] as Rank>::rank_of(a) == #[trigger] <[u8; 32] as Rank>::rank_of(b) implies a
        == b by {
        assert(byte_ints(a).len() == a.len());
        assert(byte_ints(b).len() == b.len());
        assert forall|i: int| 0 <= i < a.len() implies a[i] == b[i] by {
            assert(byte_ints(a)[i] == a[i] as int);
            assert(byte_ints(b)[i] == b[i] as int);
        }
        assert(a =~= b);
    }
}

/// The order in which members and callees are listed does not matter.
pub proof fn scc_key_ignores_order(
    salt: Seq<u8>,
    ma: Seq<Seq<u8>>,
    ca: Seq<Seq<u8>>,
    mb: Seq<Seq<u8>>,
    cb: Seq<Seq<u8>>,
)
    requires
        ma.to_multiset() == mb.to_multiset(),
        ca.to_multiset() == cb.to_multiset(),
    ensures
        scc_key_bytes(salt, ma, ca) == scc_key_bytes(salt, mb, cb),
{
    lemma_byte_ranks();
    sorting_forgets_order::<[u8; 32]>(ma, mb);
    sorting_forgets_order::<[u8; 32]>(ca, cb);
}

/// Whether all are digests.
pub open spec fn all_digests(s: Seq<Seq<u8>>) -> bool {
    forall|i: int| 0 <= i < s.len() ==> (#[trigger] s[i]).len() == 32
}

proof fn lemma_digests_split(a: Seq<Seq<u8>>, x: Seq<u8>, b: Seq<Seq<u8>>, y: Seq<u8>)
    requires
        all_digests(a),
        all_digests(b),
        a.len() == b.len(),
        digests_bytes(a) + x == digests_bytes(b) + y,
    ensures
        a == b,
        x == y,
    decreases a.len(),
{
    if a.len() == 0 {
        assert(a =~= b);
        assert(digests_bytes(a) + x =~= x);
        assert(digests_bytes(b) + y =~= y);
    } else {
        let ta = digests_bytes(a.drop_first()) + x;
        let tb = digests_bytes(b.drop_first()) + y;
        let s = digests_bytes(a) + x;
        let t = digests_bytes(b) + y;
        assert(s =~= a[0] + ta);
        assert(t =~= b[0] + tb);
        assert(s.take(32) =~= a[0]);
        assert(t.take(32) =~= b[0]);
        assert(s.skip(32) =~= ta);
        assert(t.skip(32) =~= tb);
        assert forall|i: int| 0 <= i < a.drop_first().len() implies (#[trigger] a.drop_first()[i]).len()
            == 32 by {
            assert(a.drop_first()[i] == a[i + 1]);
        }
        assert forall|i: int| 0 <= i < b.drop_first().len() implies (#[trigger] b.drop_first()[i]).len()
            == 32 by {
            assert(b.drop_first()[i] == b[i + 1]);
        }
        lemma_digests_split(a.drop_first(), x, b.drop_first(), y);
        assert(a =~= seq![a[0]] + a.drop_first());
        assert(b =~= seq![b[0]] + b.drop_first());
    }
}

proof fn lemma_sorted_digests(s: Seq<Seq<u8>>)
    requires
        all_digests(s),
    ensures
        all_digests(sorted::<[u8; 32]>(s)),
        sorted::<[u8; 32]>(s).len() == s.len(),
        sorted::<[u8; 32]>(s).to_multiset() == s.to_multiset(),
{
    let t = sorted::<[u8; 32]>(s);
    sorting_sorts::<[u8; 32]>(s);
    s.to_multiset_ensures();
    t.to_multiset_ensures();
    assert forall|i: int| 0 <= i < t.len() implies (#[trigger] t[i]).len() == 32 by {
        assert(t.contains(t[i]));
        assert(t.to_multiset().count(t[i]) > 0);
        assert(s.contains(t[i]));
    }
}

/// Components that differ in a member's code, in a callee or in the configuration never give
/// the same bytes to digest.
pub proof fn scc_key_bytes_injective(
    sa: Seq<u8>,
    ma: Seq<Seq<u8>>,
    ca: Seq<Seq<u8>>,
    sb: Seq<u8>,
    mb: Seq<Seq<u8>>,
    cb: Seq<Seq<u8>>,
)
    requires
        sa.len() == 32,
        sb.len() == 32,
        all_digests(ma),
        all_digests(mb),
        all_digests(ca),
        all_digests(cb),
        ma.len() < pow256(8),
        mb.len() < pow256(8),
        ca.len() < pow256(8),
        cb.len() < pow256(8),
        scc_key_bytes(sa, ma, ca) == scc_key_bytes(sb, mb, cb),
    ensures
        sa == sb,
        ma.to_multiset() == mb.to_multiset(),
        ca.to_multiset() == cb.to_multiset(),
{
    lemma_sorted_digests(ma);
    lemma_sorted_digests(mb);
    lemma_sorted_digests(ca);
    lemma_sorted_digests(cb);
    let m = sorted::<[u8; 32]>(ma);
    let n = sorted::<[u8; 32]>(mb);
    let c = sorted::<[u8; 32]>(ca);
    let d = sorted::<[u8; 32]>(cb);
    let x4 = le_bytes(8, c.len()) + digests_bytes(c);
    let y4 = le_bytes(8, d.len()) + digests_bytes(d);
    let x3 = digests_bytes(m) + x4;
    let y3 = digests_bytes(n) + y4;
    let x2 = le_bytes(8, m.len()) + x3;
    let y2 = le_bytes(8, n.len()) + y3;
    let x1 = sa + x2;
    let y1 = sb + y2;
    let h = key_head();
    assert((h + x1).skip(h.len() as int) =~= x1);
    assert((h + y1).skip(h.len() as int) =~= y1);
    assert(x1.take(32) =~= sa);
    assert(y1.take(32) =~= sb);
    assert(x1.skip(32) =~= x2);
    assert(y1.skip(32) =~= y2);
    le_splits(8, m.len(), n.len(), x3, y3);
    lemma_digests_split(m, x4, n, y4);
    le_splits(8, c.len(), d.len(), digests_bytes(c), digests_bytes(d));
    assert(digests_bytes(c) + Seq::<u8>::empty() =~= digests_bytes(c));
    assert(digests_bytes(d) + Seq::<u8>::empty() =~= digests_bytes(d));
    lemma_digests_split(c, Seq::empty(), d, Seq::empty());
}

/// Whether the components that are not marked are the same in both programs and call only
/// components that are not marked.
pub open spec fn unmarked_agree(p: &Program, q: &Program, sccs: &Sccs, marked: Seq<bool>) -> bool {
    forall|i: int|
        0 <= i < sccs.schedule@.len() && !#[trigger] marked[i] ==> {
            &&& member_hashes(p, sccs, i) == member_hashes(q, sccs, i)
            &&& forall|j: int|
                0 <= j < sccs.callee_sccs@[i]@.len() ==> !marked[#[trigger] sccs.callee_sccs@[i]@[j] as int]
        }
}

proof fn lemma_unmarked_keys(
    salt: Seq<u8>,
    p: &Program,
    q: &Program,
    sccs: &Sccs,
    marked: Seq<bool>,
    n: nat,
)
    requires
        sccs.wf(p.funcs@.len()),
        n <= sccs.schedule@.len(),
        unmarked_agree(p, q, sccs, marked),
    ensures
        forall|i: int|
            0 <= i < n && !#[trigger] marked[i] ==> keys_upto(salt, p, sccs, n)[i] == keys_upto(
                salt,
                q,
                sccs,
                n,
            )[i],
    decreases n,
{
    if n > 0 {
        let k = (n - 1) as nat;
        lemma_unmarked_keys(salt, p, q, sccs, marked, k);
        lemma_keys_len(salt, p, sccs, k);
        lemma_keys_len(salt, q, sccs, k);
        let a = keys_upto(salt, p, sccs, k);
        let b = keys_upto(salt, q, sccs, k);
        if !marked[k as int] {
            assert(callee_keys(sccs, k as int, a) =~= callee_keys(sccs, k as int, b)) by {
                assert forall|j: int| 0 <= j < sccs.callee_sccs@[k as int]@.len() implies callee_keys(
                    sccs,
                    k as int,
                    a,
                )[j] == callee_keys(sccs, k as int, b)[j] by {
                    let d = sccs.callee_sccs@[k as int]@[j];
                    assert(d < k);
                    assert(!marked[d as int]);
                }
            }
        }
    }
}

/// After an edit, the components that do not call, directly or through others, a component
/// with changed code keep their keys: they are still found in the cache.
pub proof fn untouched_components_keep_keys(
    salt: Seq<u8>,
    p: &Program,
    q: &Program,
    sccs: &Sccs,
    marked: Seq<bool>,
    i: int,
)
    requires
        sccs.wf(p.funcs@.len()),
        unmarked_agree(p, q, sccs, marked),
        0 <= i < sccs.schedule@.len(),
        !marked[i],
    ensures
        keys_upto(salt, p, sccs, sccs.schedule@.len())[i] == keys_upto(
            salt,
            q,
            sccs,
            sccs.schedule@.len(),
        )[i],
{
    lemma_unmarked_keys(salt, p, q, sccs, marked, sccs.schedule@.len());
}

/// The cached results.
#[derive(Debug, PartialEq, Eq)]
pub struct SccCache {
    pub store: Store,
    pub salt: [u8; 32],
}

impl SccCache {
    /// A cache at `root` for results under `cfg`.
    pub fn open(root: String, cfg: &CacheConfigKey) -> (r: SccCache)
        ensures
            r.store.root@ == root@,
            r.salt@ == blake3_digest(salt_bytes(cfg@)),
    {
        let mut out: Vec<u8> = Vec::new();
        put_utf8("goverify-scc-salt\0", &mut out);
        put_le(&mut out, 4, SCC_CACHE_VERSION as u128);
        out.push(TERM_CODEC_VERSION);
        assert(out@ =~= salt_head());
        put_field(&mut out, cfg.solver_identity.as_str());
        put_field(&mut out, cfg.findings_identity.as_str());
        put_limits(&mut out, cfg.infer_limits);
        put_limits(&mut out, cfg.findings_limits);
        put_le(&mut out, 4, cfg.widen_after as u128);
        put_le(&mut out, 4, cfg.annotation_version as u128);
        let checkers = sort_items(copy_checkers(&cfg.checkers));
        put_checkers(&mut out, &checkers);
        assert(out@ =~= salt_bytes(cfg@));
        SccCache { store: Store::open(root), salt: digest(&out) }
    }

    /// The keys of all components, in schedule order.
    pub fn keys(&self, p: &Program, sccs: &Sccs) -> (r: Vec<[u8; 32]>)
        requires
            sccs.wf(p.funcs@.len()),
        ensures
            views(r@) == keys_upto(self.salt@, p, sccs, sccs.schedule@.len()),
    {
        let mut keys: Vec<[u8; 32]> = Vec::new();
        let mut si: usize = 0;
        assert(views(keys@) =~= Seq::<Seq<u8>>::empty());
        while si < sccs.schedule.len()
            invariant
                si <= sccs.schedule@.len(),
                sccs.wf(p.funcs@.len()),
                keys@.len() == si,
                views(keys@) == keys_upto(self.salt@, p, sccs, si as nat),
            decreases sccs.schedule@.len() - si,
        {
            let k = self.key(p, sccs, si, &keys);
            let ghost before = keys@;
            keys.push(k);
            assert(views(keys@) =~= views(before).push(k@));
            si += 1;
        }
        keys
    }

    /// The key of component `si`, given those of the components before it.
    fn key(&self, p: &Program, sccs: &Sccs, si: usize, keys: &Vec<[u8; 32]>) -> (r: [u8; 32])
        requires
            sccs.wf(p.funcs@.len()),
            si < sccs.schedule@.len(),
            keys@.len() == si,
        ensures
            r@ == blake3_digest(
                scc_key_bytes(
                    self.salt@,
                    member_hashes(p, sccs, si as int),
                    callee_keys(sccs, si as int, views(keys@)),
                ),
            ),
    {
        let mut members: Vec<[u8; 32]> = Vec::new();
        let mut j: usize = 0;
        while j < sccs.schedule[si].len()
            invariant
                sccs.wf(p.funcs@.len()),
                si < sccs.schedule@.len(),
                j <= sccs.schedule@[si as int]@.len(),
                members@.len() == j,
                forall|a: int|
                    0 <= a < j ==> (#[trigger] members@[a])@ == p.hash_of(sccs.schedule@[si as int]@[a]),
            decreases sccs.schedule@[si as int]@.len() - j,
        {
            members.push(p.func_ir_hash(sccs.schedule[si][j]));
            j += 1;
        }
        assert(views(members@) =~= member_hashes(p, sccs, si as int));
        let mut callees: Vec<[u8; 32]> = Vec::new();
        let mut k: usize = 0;
        let ghost kv = views(keys@);
        while k < sccs.callee_sccs[si].len()
            invariant
                sccs.wf(p.funcs@.len()),
                si < sccs.schedule@.len(),
                keys@.len() == si,
                kv == views(keys@),
                k <= sccs.callee_sccs@[si as int]@.len(),
                callees@.len() == k,
                forall|a: int|
                    0 <= a < k ==> (#[trigger] callees@[a])@ == kv[sccs.callee_sccs@[si as int]@[a] as int],
            decreases sccs.callee_sccs@[si as int]@.len() - k,
        {
            let d = sccs.callee_sccs[si][k];
            callees.push(keys[d]);
            k += 1;
        }
        assert(views(callees@) =~= callee_keys(sccs, si as int, kv));
        let members = sort_items(members);
        let callees = sort_items(callees);
        let mut out: Vec<u8> = Vec::new();
        put_utf8("goverify-scc-key\0", &mut out);
        put_digest(&mut out, &self.salt);
        put_le(&mut out, 8, members.len() as u128);
        put_digests(&mut out, &members);
        put_le(&mut out, 8, callees.len() as u128);
        put_digests(&mut out, &callees);
        proof {
            assert(views(members@).len() == members@.len());
            assert(views(callees@).len() == callees@.len());
            assert(out@ =~= scc_key_bytes(
                self.salt@,
                member_hashes(p, sccs, si as int),
                callee_keys(sccs, si as int, kv),
            ));
        }
        digest(&out)
    }

    /// Where the entry at `key` lies.
    pub fn path(&self, key: &[u8; 32]) -> (r: String)
        ensures
            r@ == entry_path_of(self.store.root@, LAYER@, key@),
    {
        self.store.entry_path(LAYER, key)
    }

    /// The entry in what was read at [`SccCache::path`]; what could not be read, or is no
    /// entry, is a miss.
    pub fn get(&self, stored: Option<Vec<u8>>) -> (r: Option<SccEntry>)
        ensures
            match stored {
                Some(b) => match r {
                    Some(e) => read_entry(b@) == Some(e@) && e.wf(),
                    None => read_entry(b@) is None,
                },
                None => r is None,
            },
    {
        match stored {
            Some(b) => decode_entry_bytes(&b),
            None => None,
        }
    }

    /// What is to be written to store `e` at `key`.
    pub fn put(&self, key: &[u8; 32], e: &SccEntry, owner: u32) -> (r: Write)
        requires
            e.wf(),
        ensures
            stores(r, self.store.root@, LAYER@, key@, owner),
            r.bytes@ == entry_bytes(e@),
    {
        self.store.put(LAYER, key, encode_entry(e), owner)
    }
}

// ---- Entries ----

/// The results for one function.
#[derive(Debug, PartialEq, Eq)]
pub struct MemberEntry {
    /// The function's name, by which an entry is held against the program.
    pub func: String,
    pub summary: Summary,
    pub analysis_diag: Option<String>,
    /// In order.
    pub findings: Vec<Finding>,
    pub findings_diags: Vec<String>,
}

/// The model of a [`MemberEntry`].
pub struct MemberEntryV {
    pub func: Seq<char>,
    pub summary: SummaryV,
    pub analysis_diag: Option<Seq<char>>,
    pub findings: Seq<FindingV>,
    pub findings_diags: Seq<Seq<char>>,
}

impl View for MemberEntry {
    type V = MemberEntryV;

    open spec fn view(&self) -> MemberEntryV {
        MemberEntryV {
            func: self.func@,
            summary: self.summary@,
            analysis_diag: opt_view(self.analysis_diag),
            findings: findings_v(self.findings@),
            findings_diags: views(self.findings_diags@),
        }
    }
}

/// The parts of a [`MemberEntry`], in the order in which they are written.
pub type MemberEntryParts = (String, (Summary, (Maybe<String>, (Items<Finding>, Items<String>))));

/// The parts of the model.
pub open spec fn member_entry_parts(v: MemberEntryV) -> <MemberEntryParts as View>::V {
    (v.func, (v.summary, (v.analysis_diag, (v.findings, v.findings_diags))))
}

/// The model with these parts.
pub open spec fn member_entry_of(p: <MemberEntryParts as View>::V) -> MemberEntryV {
    MemberEntryV { func: p.0, summary: p.1.0, analysis_diag: p.1.1.0, findings: p.1.1.1.0, findings_diags: p.1.1.1.1 }
}

impl Codec for MemberEntry {
    open spec fn bytes_of(v: MemberEntryV) -> Seq<u8> {
        <MemberEntryParts as Codec>::bytes_of(member_entry_parts(v))
    }

    open spec fn read(s: Seq<u8>) -> Option<(MemberEntryV, Seq<u8>)> {
        match <MemberEntryParts as Codec>::read(s) {
            Some((p, rest)) => Some((member_entry_of(p), rest)),
            None => None,
        }
    }

    open spec fn encodable(v: MemberEntryV) -> bool {
        <MemberEntryParts as Codec>::encodable(member_entry_parts(v))
    }

    open spec fn valid(&self) -> bool {
        self.summary.effects.wf()
    }

    proof fn round_trip(v: MemberEntryV, rest: Seq<u8>) {
        <MemberEntryParts as Codec>::round_trip(member_entry_parts(v), rest);
    }

    fn put(&self, out: &mut Vec<u8>) {
        let ghost before = out@;
        self.func.put(out);
        let ghost o1 = out@;
        self.summary.put(out);
        let ghost o2 = out@;
        put_opt(&self.analysis_diag, out);
        let ghost o3 = out@;
        put_list(&self.findings, out);
        let ghost o4 = out@;
        put_list(&self.findings_diags, out);
        assert(views(self.findings@) =~= findings_v(self.findings@));
        proof {
            let v = self@;
            let t4 = <Items<String> as Codec>::bytes_of(v.findings_diags);
            lemma_append(o3, <Items<Finding> as Codec>::bytes_of(v.findings), t4);
            let t3 = <Items<Finding> as Codec>::bytes_of(v.findings) + t4;
            lemma_append(o2, <Maybe<String> as Codec>::bytes_of(v.analysis_diag), t3);
            let t2 = <Maybe<String> as Codec>::bytes_of(v.analysis_diag) + t3;
            lemma_append(o1, <Summary as Codec>::bytes_of(v.summary), t2);
            let t1 = <Summary as Codec>::bytes_of(v.summary) + t2;
            lemma_append(before, <String as Codec>::bytes_of(v.func), t1);
        }
        assert(out@ == before + Self::bytes_of(self@));
    }

    fn take(input: &Vec<u8>, at: usize) -> (r: Option<(MemberEntry, usize)>) {
        match <MemberEntryParts as Codec>::take(input, at) {
            Some((p, k)) => {
                let ghost pv = p@;
                let r = MemberEntry { func: p.0, summary: p.1.0, analysis_diag: p.1.1.0.0, findings: p.1.1.1.0.0, findings_diags: p.1.1.1.1.0 };
                assert(views(r.findings@) =~= findings_v(r.findings@));
                assert(r@ == member_entry_of(pv));
                Some((r, k))
            },
            None => None,
        }
    }
}

/// The results for a component, its members in schedule order.
#[derive(Debug, PartialEq, Eq)]
pub struct SccEntry {
    pub members: Vec<MemberEntry>,
}

impl View for SccEntry {
    type V = Seq<MemberEntryV>;

    open spec fn view(&self) -> Seq<MemberEntryV> {
        views(self.members@)
    }
}

impl SccEntry {
    /// The effects maps are sorted.
    pub open spec fn wf(&self) -> bool {
        forall|i: int| 0 <= i < self.members@.len() ==> (#[trigger] self.members@[i]).valid()
    }
}

/// The bytes of an entry: the version of the format, then the members.
pub open spec fn entry_bytes(v: Seq<MemberEntryV>) -> Seq<u8> {
    seq![SCC_ENTRY_FORMAT] + list_bytes::<MemberEntry>(v)
}

/// The entry that the bytes stand for, if they are well formed to their end.
pub open spec fn read_entry(b: Seq<u8>) -> Option<Seq<MemberEntryV>> {
    match read_code(b) {
        Some((f, rest)) => if f != SCC_ENTRY_FORMAT {
            None
        } else {
            match read_list::<MemberEntry>(rest) {
                Some((v, rest)) => if rest.len() == 0 {
                    Some(v)
                } else {
                    None
                },
                None => None,
            }
        },
        None => None,
    }
}

/// The bytes of an entry.
pub fn encode_entry(e: &SccEntry) -> (r: Vec<u8>)
    requires
        e.wf(),
    ensures
        r@ == entry_bytes(e@),
{
    let mut out: Vec<u8> = Vec::new();
    out.push(SCC_ENTRY_FORMAT);
    assert(out@ =~= seq![SCC_ENTRY_FORMAT]);
    put_list(&e.members, &mut out);
    out
}

/// The entry in `bytes`; bytes of any other shape are none.
pub fn decode_entry_bytes(bytes: &Vec<u8>) -> (r: Option<SccEntry>)
    ensures
        match r {
            Some(e) => read_entry(bytes@) == Some(e@) && e.wf(),
            None => read_entry(bytes@) is None,
        },
{
    assert(bytes@.skip(0) =~= bytes@);
    match take_u8(bytes, 0) {
        Some((f, k)) => {
            if f != SCC_ENTRY_FORMAT {
                return None;
            }
            match take_list::<MemberEntry>(bytes, k) {
                Some((members, k)) => {
                    if k == bytes.len() {
                        Some(SccEntry { members })
                    } else {
                        None
                    }
                },
                None => None,
            }
        },
        None => None,
    }
}

/// An entry that was written reads back.
pub proof fn entry_round_trip(v: Seq<MemberEntryV>)
    requires
        list_encodable::<MemberEntry>(v),
    ensures
        read_entry(entry_bytes(v)) == Some(v),
{
    let b = list_bytes::<MemberEntry>(v);
    code_round_trip(SCC_ENTRY_FORMAT, b);
    list_round_trip::<MemberEntry>(v, Seq::empty());
    assert(b + Seq::<u8>::empty() =~= b);
}

/// The bytes of an entry with anything behind them are no entry.
pub proof fn entry_with_more_is_none(v: Seq<MemberEntryV>, more: Seq<u8>)
    requires
        list_encodable::<MemberEntry>(v),
        more.len() > 0,
    ensures
        read_entry(entry_bytes(v) + more) is None,
{
    let b = list_bytes::<MemberEntry>(v);
    assert(entry_bytes(v) + more =~= seq![SCC_ENTRY_FORMAT] + (b + more));
    code_round_trip(SCC_ENTRY_FORMAT, b + more);
    list_round_trip::<MemberEntry>(v, more);
}

} // verus!
