//! What the cache promises: a second analysis with the results of the first gives the same
//! results, and asks nothing.

use vstd::prelude::*;
use crate::annotations::Annotations;
use crate::checker::Checker;
use crate::engine::{
    after_component, after_wave, after_waves, analysis, callees_are_in_earlier_waves,
    component_entry, depths_of, entry_fits, final_table, fixpoint_of, found_at, fresh_upto,
    input_fits, is_hit, lemma_depths, member_entry, replayed, report_of, report_upto, start_of,
    wave_upto, waves_of, AnalysisV, InputV, ReplayV, RunV,
};
use crate::fixpoint::{
    function_summary, is_recursive, members_fit, round_upto, settled, started, widened,
    with_summary, AnswersV, ComponentV,
};
use crate::ir::{CallGraph, FuncId, Program, Sccs};
use crate::scc_cache::MemberEntryV;
use crate::summary::{summary_default, summary_havoc_with, SummaryV, TableV};

verus! {

/// Whether `i` is the number of a member.
pub open spec fn is_member(members: Seq<FuncId>, i: int) -> bool {
    exists|j: int| 0 <= j < members.len() && (#[trigger] members[j]).0 == i
}

/// Whether function `i` is in a component.
pub open spec fn scheduled(sccs: &Sccs, i: int) -> bool {
    exists|si: int|
        0 <= si < sccs.schedule@.len() && is_member(#[trigger] sccs.schedule@[si]@, i)
}

/// A function is a member of one component only.
proof fn lemma_one_component(sccs: &Sccs, a: int, b: int, i: int)
    requires
        sccs.disjoint(),
        0 <= a < sccs.schedule@.len(),
        0 <= b < sccs.schedule@.len(),
        is_member(sccs.schedule@[a]@, i),
        is_member(sccs.schedule@[b]@, i),
    ensures
        a == b,
{
    let x = sccs.schedule@[a]@;
    let y = sccs.schedule@[b]@;
    let j = choose|j: int| 0 <= j < x.len() && (#[trigger] x[j]).0 == i;
    let k = choose|k: int| 0 <= k < y.len() && (#[trigger] y[k]).0 == i;
    assert(x[j] == y[k]);
    assert(sccs.has(a, x[j]));
    assert(sccs.has(b, x[j]));
}

/// Whether `u` differs from `t` at members only, and has a summary for each of them.
spec fn framed(t: TableV, u: TableV, members: Seq<FuncId>) -> bool {
    &&& u.entries.len() == t.entries.len()
    &&& forall|i: int|
        0 <= i < t.entries.len() && !is_member(members, i) ==> #[trigger] u.entries[i] == t.entries[i]
    &&& forall|i: int|
        0 <= i < t.entries.len() && t.entries[i] is Some ==> (#[trigger] u.entries[i]) is Some
}

/// Whether `e` says of others than members what `d` says.
spec fn said_framed(
    d: Seq<Option<Seq<char>>>,
    e: Seq<Option<Seq<char>>>,
    members: Seq<FuncId>,
) -> bool {
    &&& e.len() == d.len()
    &&& forall|i: int| 0 <= i < d.len() && !is_member(members, i) ==> #[trigger] e[i] == d[i]
}

proof fn lemma_with_framed(t: TableV, u: TableV, members: Seq<FuncId>, k: int, s: SummaryV)
    requires
        framed(t, u, members),
        0 <= k < members.len(),
        members_fit(members, t.entries.len()),
    ensures
        framed(t, with_summary(u, members[k], s), members),
{
    assert(members[k].0 < t.entries.len());
    assert(is_member(members, members[k].0 as int));
}

proof fn lemma_started_framed(t: TableV, members: Seq<FuncId>, n: nat)
    requires
        n <= members.len(),
        members_fit(members, t.entries.len()),
    ensures
        framed(t, started(t, members, n), members),
    decreases n,
{
    if n > 0 {
        lemma_started_framed(t, members, (n - 1) as nat);
        lemma_with_framed(
            t,
            started(t, members, (n - 1) as nat),
            members,
            n - 1,
            summary_default(),
        );
    }
}

proof fn lemma_widened_framed(t: TableV, u: TableV, members: Seq<FuncId>, anns: &Annotations, n: nat)
    requires
        n <= members.len(),
        members_fit(members, t.entries.len()),
        framed(t, u, members),
    ensures
        framed(t, widened(u, members, anns, n), members),
    decreases n,
{
    if n > 0 {
        lemma_widened_framed(t, u, members, anns, (n - 1) as nat);
        lemma_with_framed(
            t,
            widened(u, members, anns, (n - 1) as nat),
            members,
            n - 1,
            summary_havoc_with(anns.of(members[n - 1])),
        );
    }
}

proof fn lemma_round_framed<C: Checker>(
    p: &Program,
    g: &CallGraph,
    members: Seq<FuncId>,
    cs: Seq<C>,
    m: AnswersV,
    anns: &Annotations,
    t: TableV,
    s: ComponentV,
    n: nat,
)
    requires
        n <= members.len(),
        members_fit(members, t.entries.len()),
        framed(t, s.table, members),
    ensures
        framed(t, round_upto(p, g, members, cs, m, anns, s, n).table, members),
    decreases n,
{
    if n > 0 {
        lemma_round_framed(p, g, members, cs, m, anns, t, s, (n - 1) as nat);
        let b = round_upto(p, g, members, cs, m, anns, s, (n - 1) as nat);
        let f = members[n - 1];
        lemma_with_framed(
            t,
            b.table,
            members,
            n - 1,
            function_summary(p, g, f, b.table, cs, m, anns.of(f)),
        );
    }
}

proof fn lemma_settled_framed<C: Checker>(
    p: &Program,
    g: &CallGraph,
    members: Seq<FuncId>,
    cs: Seq<C>,
    m: AnswersV,
    anns: &Annotations,
    recursive: bool,
    widen_after: nat,
    t: TableV,
    s: ComponentV,
    rounds: nat,
)
    requires
        members_fit(members, t.entries.len()),
        framed(t, s.table, members),
    ensures
        framed(
            t,
            settled(p, g, members, cs, m, anns, recursive, widen_after, s, rounds).table,
            members,
        ),
    decreases widen_after - rounds,
{
    let r = round_upto(p, g, members, cs, m, anns, s, members.len());
    lemma_round_framed(p, g, members, cs, m, anns, t, s, members.len());
    if !recursive || !r.changed {
    } else if rounds >= widen_after {
        lemma_widened_framed(t, r.table, members, anns, members.len());
    } else {
        lemma_settled_framed(
            p,
            g,
            members,
            cs,
            m,
            anns,
            recursive,
            widen_after,
            t,
            r,
            rounds + 1,
        );
    }
}

proof fn lemma_round_said<C: Checker>(
    p: &Program,
    g: &CallGraph,
    members: Seq<FuncId>,
    cs: Seq<C>,
    m: AnswersV,
    anns: &Annotations,
    d: Seq<Option<Seq<char>>>,
    s: ComponentV,
    n: nat,
)
    requires
        n <= members.len(),
        members_fit(members, d.len()),
        said_framed(d, s.diags, members),
    ensures
        said_framed(d, round_upto(p, g, members, cs, m, anns, s, n).diags, members),
    decreases n,
{
    if n > 0 {
        lemma_round_said(p, g, members, cs, m, anns, d, s, (n - 1) as nat);
        assert(members[n - 1].0 < d.len());
        assert(is_member(members, members[n - 1].0 as int));
    }
}

proof fn lemma_settled_said<C: Checker>(
    p: &Program,
    g: &CallGraph,
    members: Seq<FuncId>,
    cs: Seq<C>,
    m: AnswersV,
    anns: &Annotations,
    recursive: bool,
    widen_after: nat,
    d: Seq<Option<Seq<char>>>,
    s: ComponentV,
    rounds: nat,
)
    requires
        members_fit(members, d.len()),
        said_framed(d, s.diags, members),
    ensures
        said_framed(
            d,
            settled(p, g, members, cs, m, anns, recursive, widen_after, s, rounds).diags,
            members,
        ),
    decreases widen_after - rounds,
{
    let r = round_upto(p, g, members, cs, m, anns, s, members.len());
    lemma_round_said(p, g, members, cs, m, anns, d, s, members.len());
    if recursive && r.changed && rounds < widen_after {
        lemma_settled_said(p, g, members, cs, m, anns, recursive, widen_after, d, r, rounds + 1);
    }
}

/// Analysing a component changes the summaries of its members only, and what is said of them.
proof fn lemma_component_framed<C: Checker>(p: &Program, inp: InputV<C>, s: RunV, si: int)
    requires
        input_fits(p, inp),
        0 <= si < inp.sccs.schedule@.len(),
        s.table.entries.len() >= p.funcs@.len(),
        s.diags.len() == p.funcs@.len(),
        !is_hit(p, inp, si),
    ensures
        framed(s.table, after_component(p, inp, s, si).table, inp.sccs.schedule@[si]@),
        said_framed(s.diags, after_component(p, inp, s, si).diags, inp.sccs.schedule@[si]@),
        members_fit(inp.sccs.schedule@[si]@, p.funcs@.len()),
{
    let members = inp.sccs.schedule@[si]@;
    assert(members_fit(members, p.funcs@.len())) by {
        assert forall|i: int| 0 <= i < members.len() implies (#[trigger] members[i]).0
            < p.funcs@.len() by {
            assert(inp.sccs.schedule@[si]@[i].0 < p.funcs@.len());
        }
    }
    lemma_started_framed(s.table, members, members.len());
    let at = ComponentV {
        table: started(s.table, members, members.len()),
        asked: s.asked,
        diags: s.diags,
        changed: false,
    };
    let rec = is_recursive(&inp.graph, members);
    let (g, cs, m, anns) = (&inp.graph, inp.checkers, inp.infer, &inp.anns);
    lemma_settled_framed(p, g, members, cs, m, anns, rec, inp.widen_after, s.table, at, 0);
    lemma_settled_said(p, g, members, cs, m, anns, rec, inp.widen_after, s.diags, at, 0);
}

// ---- One list of components ----

/// The components of the first `n` waves in one list.
spec fn flat(waves: Seq<Seq<usize>>, n: nat) -> Seq<usize>
    decreases n,
{
    if n == 0 {
        Seq::empty()
    } else {
        flat(waves, (n - 1) as nat) + waves[n - 1]
    }
}

proof fn lemma_wave_prefix<C: Checker>(
    p: &Program,
    inp: InputV<C>,
    a: Seq<usize>,
    b: Seq<usize>,
    s: RunV,
    n: nat,
)
    requires
        n <= a.len(),
    ensures
        after_wave(p, inp, a + b, s, n) == after_wave(p, inp, a, s, n),
    decreases n,
{
    if n > 0 {
        lemma_wave_prefix(p, inp, a, b, s, (n - 1) as nat);
        assert((a + b)[n - 1] == a[n - 1]);
    }
}

proof fn lemma_wave_append<C: Checker>(
    p: &Program,
    inp: InputV<C>,
    a: Seq<usize>,
    b: Seq<usize>,
    s: RunV,
    n: nat,
)
    requires
        n <= b.len(),
    ensures
        after_wave(p, inp, a + b, s, a.len() + n) == after_wave(
            p,
            inp,
            b,
            after_wave(p, inp, a, s, a.len()),
            n,
        ),
    decreases n,
{
    if n > 0 {
        lemma_wave_append(p, inp, a, b, s, (n - 1) as nat);
        assert((a + b)[a.len() + n - 1] == b[n - 1]);
    } else {
        lemma_wave_prefix(p, inp, a, b, s, a.len());
    }
}

proof fn lemma_flat<C: Checker>(p: &Program, inp: InputV<C>, waves: Seq<Seq<usize>>, s: RunV, n: nat)
    requires
        n <= waves.len(),
    ensures
        after_waves(p, inp, waves, s, n) == after_wave(
            p,
            inp,
            flat(waves, n),
            s,
            flat(waves, n).len(),
        ),
    decreases n,
{
    if n > 0 {
        let k = (n - 1) as nat;
        lemma_flat(p, inp, waves, s, k);
        lemma_wave_append(p, inp, flat(waves, k), waves[n - 1], s, waves[n - 1].len());
    }
}

/// Whether `o` lists each component once.
spec fn lists_all(o: Seq<usize>, n: nat) -> bool {
    &&& forall|k: int| 0 <= k < o.len() ==> (#[trigger] o[k]) < n
    &&& forall|i: int, j: int|
        0 <= i < o.len() && 0 <= j < o.len() && #[trigger] o[i] == #[trigger] o[j] ==> i == j
    &&& forall|i: int| 0 <= i < n ==> o.contains(#[trigger] (i as usize))
}

proof fn lemma_wave_ascends(depths: Seq<nat>, d: nat, n: nat)
    requires
        n <= depths.len(),
        n <= usize::MAX,
    ensures
        forall|i: int, j: int|
            0 <= i < j < wave_upto(depths, d, n).len() ==> (#[trigger] wave_upto(depths, d, n)[i]) < (
            #[trigger] wave_upto(depths, d, n)[j]),
        forall|k: int|
            0 <= k < wave_upto(depths, d, n).len() ==> (#[trigger] wave_upto(depths, d, n)[k]) < n
                && depths[wave_upto(depths, d, n)[k] as int] == d,
    decreases n,
{
    if n > 0 {
        lemma_wave_ascends(depths, d, (n - 1) as nat);
        let b = wave_upto(depths, d, (n - 1) as nat);
        let a = wave_upto(depths, d, n);
        assert forall|k: int| 0 <= k < a.len() implies (#[trigger] a[k]) < n && depths[a[k] as int]
            == d by {
            if k < b.len() {
                assert(a[k] == b[k]);
            }
        }
        assert forall|i: int, j: int| 0 <= i < j < a.len() implies (#[trigger] a[i]) < (
        #[trigger] a[j]) by {
            assert(a[i] == b[i]);
            if j < b.len() {
                assert(a[j] == b[j]);
            }
        }
    }
}

proof fn lemma_flat_lists(sccs: &Sccs, funcs: nat, waves: Seq<Seq<usize>>, n: nat)
    requires
        sccs.wf(funcs),
        sccs.schedule@.len() <= usize::MAX,
        waves == waves_of(sccs),
        n <= waves.len(),
        depths_of(sccs).len() == sccs.schedule@.len(),
    ensures
        ({
            let o = flat(waves, n);
            &&& forall|k: int|
                0 <= k < o.len() ==> (#[trigger] o[k]) < sccs.schedule@.len() && depths_of(
                    sccs,
                )[o[k] as int] < n
            &&& forall|i: int, j: int|
                0 <= i < o.len() && 0 <= j < o.len() && #[trigger] o[i] == #[trigger] o[j] ==> i == j
        }),
    decreases n,
{
    if n > 0 {
        let k = (n - 1) as nat;
        lemma_flat_lists(sccs, funcs, waves, k);
        let a = flat(waves, k);
        let w = waves[n - 1];
        let d = depths_of(sccs);
        assert(w == wave_upto(d, k, d.len()));
        lemma_wave_ascends(d, k, d.len());
        let o = flat(waves, n);
        assert forall|i: int| 0 <= i < o.len() implies (#[trigger] o[i]) < sccs.schedule@.len()
            && d[o[i] as int] < n by {
            if i < a.len() {
                assert(o[i] == a[i]);
            } else {
                assert(o[i] == w[i - a.len()]);
            }
        }
        assert forall|i: int, j: int|
            0 <= i < o.len() && 0 <= j < o.len() && #[trigger] o[i] == #[trigger] o[j] implies i
            == j by {
            if i < a.len() && j < a.len() {
                assert(a[i] == a[j]);
            } else if i < a.len() {
                assert(o[i] == a[i]);
                assert(o[j] == w[j - a.len()]);
                assert(d[a[i] as int] < k);
            } else if j < a.len() {
                assert(o[j] == a[j]);
                assert(o[i] == w[i - a.len()]);
                assert(d[a[j] as int] < k);
            } else {
                assert(o[i] == w[i - a.len()]);
                assert(o[j] == w[j - a.len()]);
                if i < j {
                    assert(w[i - a.len()] < w[j - a.len()]);
                }
                if j < i {
                    assert(w[j - a.len()] < w[i - a.len()]);
                }
            }
        }
    }
}

proof fn lemma_flat_holds(waves: Seq<Seq<usize>>, n: nat, d: int, x: usize)
    requires
        0 <= d < n <= waves.len(),
        waves[d].contains(x),
    ensures
        flat(waves, n).contains(x),
    decreases n,
{
    let k = (n - 1) as nat;
    let o = flat(waves, n);
    let a = flat(waves, k);
    if d < k {
        lemma_flat_holds(waves, k, d, x);
        let i = choose|i: int| 0 <= i < a.len() && a[i] == x;
        assert(o[i] == x);
    } else {
        let i = choose|i: int| 0 <= i < waves[d].len() && waves[d][i] == x;
        assert(o[a.len() + i] == x);
    }
}

proof fn lemma_order(sccs: &Sccs, funcs: nat)
    requires
        sccs.wf(funcs),
        sccs.schedule@.len() <= usize::MAX,
    ensures
        lists_all(flat(waves_of(sccs), waves_of(sccs).len()), sccs.schedule@.len()),
{
    let waves = waves_of(sccs);
    let n = sccs.schedule@.len();
    let o = flat(waves, waves.len());
    lemma_depths(sccs, n, funcs);
    lemma_flat_lists(sccs, funcs, waves, waves.len());
    assert forall|i: int| 0 <= i < n implies o.contains(#[trigger] (i as usize)) by {
        callees_are_in_earlier_waves(sccs, funcs, i);
        lemma_flat_holds(waves, waves.len(), depths_of(sccs)[i] as int, i as usize);
    }
}

// ---- Cold and warm ----

/// The state of an analysis that finds nothing in the cache, after the first `k` of `o`.
proof fn lemma_cold<C: Checker>(p: &Program, inp: InputV<C>, o: Seq<usize>, k: nat)
    requires
        input_fits(p, inp),
        inp.caching,
        forall|si: int| 0 <= si < inp.sccs.schedule@.len() ==> !#[trigger] is_hit(p, inp, si),
        lists_all(o, inp.sccs.schedule@.len()),
        k <= o.len(),
    ensures
        ({
            let s = after_wave(p, inp, o, start_of(p, inp), k);
            let s0 = start_of(p, inp);
            &&& s.hits == 0
            &&& s.misses == k
            &&& s.diags.len() == p.funcs@.len()
            &&& s.replays == s0.replays
            &&& s.table.entries.len() == s0.table.entries.len()
            &&& forall|i: int| 0 <= i < s.table.entries.len() ==> (#[trigger] s.table.entries[i]) is Some
            &&& s.fresh.len() == s0.fresh.len()
            &&& forall|j: int| 0 <= j < k ==> s.fresh[#[trigger] o[j] as int]
        }),
    decreases k,
{
    if k > 0 {
        lemma_cold(p, inp, o, (k - 1) as nat);
        let b = after_wave(p, inp, o, start_of(p, inp), (k - 1) as nat);
        let si = o[k - 1] as int;
        lemma_component_framed(p, inp, b, si);
        let s = after_component(p, inp, b, si);
        assert forall|i: int| 0 <= i < s.table.entries.len() implies (#[trigger] s.table.entries[i])
            is Some by {
            assert(b.table.entries[i] is Some);
        }
    }
}

/// What a component's members have after it has run, they keep.
proof fn lemma_kept<C: Checker>(p: &Program, inp: InputV<C>, o: Seq<usize>, j: int, k: nat, i: int)
    requires
        input_fits(p, inp),
        inp.caching,
        forall|si: int| 0 <= si < inp.sccs.schedule@.len() ==> !#[trigger] is_hit(p, inp, si),
        lists_all(o, inp.sccs.schedule@.len()),
        0 <= j < k <= o.len(),
        is_member(inp.sccs.schedule@[o[j] as int]@, i),
        0 <= i < start_of(p, inp).table.entries.len(),
    ensures
        after_wave(p, inp, o, start_of(p, inp), k).table.entries[i] == after_wave(
            p,
            inp,
            o,
            start_of(p, inp),
            (j + 1) as nat,
        ).table.entries[i],
        i < p.funcs@.len() ==> after_wave(p, inp, o, start_of(p, inp), k).diags[i] == after_wave(
            p,
            inp,
            o,
            start_of(p, inp),
            (j + 1) as nat,
        ).diags[i],
    decreases k,
{
    if j + 1 < k {
        lemma_kept(p, inp, o, j, (k - 1) as nat, i);
        lemma_cold(p, inp, o, (k - 1) as nat);
        let b = after_wave(p, inp, o, start_of(p, inp), (k - 1) as nat);
        let si = o[k - 1] as int;
        lemma_component_framed(p, inp, b, si);
        assert(o[j] != o[k - 1]);
        if is_member(inp.sccs.schedule@[si]@, i) {
            lemma_one_component(&inp.sccs, o[j] as int, si, i);
        }
    }
}

proof fn lemma_replayed(s: RunV, members: Seq<FuncId>, e: Seq<MemberEntryV>, n: nat)
    requires
        n <= members.len(),
        n <= e.len(),
        members_fit(members, s.table.entries.len()),
        members_fit(members, s.diags.len()),
        members_fit(members, s.replays.len()),
    ensures
        ({
            let r = replayed(s, members, e, n);
            &&& r.asked == s.asked
            &&& r.fresh == s.fresh
            &&& r.hits == s.hits
            &&& r.misses == s.misses
            &&& r.table.entries.len() == s.table.entries.len()
            &&& r.diags.len() == s.diags.len()
            &&& r.replays.len() == s.replays.len()
            &&& forall|i: int|
                0 <= i < s.table.entries.len() && !is_member(members.take(n as int), i)
                    ==> #[trigger] r.table.entries[i] == s.table.entries[i]
            &&& forall|i: int|
                0 <= i < s.diags.len() && !is_member(members.take(n as int), i)
                    ==> #[trigger] r.diags[i] == s.diags[i]
            &&& forall|i: int|
                0 <= i < s.replays.len() && !is_member(members.take(n as int), i)
                    ==> #[trigger] r.replays[i] == s.replays[i]
        }),
    decreases n,
{
    if n > 0 {
        let k = (n - 1) as nat;
        lemma_replayed(s, members, e, k);
        let b = replayed(s, members, e, k);
        let r = replayed(s, members, e, n);
        let f = members[n - 1].0 as int;
        assert(members[n - 1].0 < s.table.entries.len());
        assert(members[n - 1].0 < s.diags.len());
        assert(members[n - 1].0 < s.replays.len());
        assert forall|i: int| !is_member(members.take(n as int), i) implies i != f && !is_member(
            members.take(k as int),
            i,
        ) by {
            assert(members.take(n as int)[n - 1] == members[n - 1]);
            if is_member(members.take(k as int), i) {
                let j = choose|j: int|
                    0 <= j < members.take(k as int).len() && (#[trigger] members.take(k as int)[j]).0
                        == i;
                assert(members.take(n as int)[j] == members.take(k as int)[j]);
            }
        }
    }
}

/// Where a member is replayed, the entries say what it gets.
proof fn lemma_replayed_at(s: RunV, members: Seq<FuncId>, e: Seq<MemberEntryV>, n: nat, i: int, x: MemberEntryV)
    requires
        n <= members.len(),
        n <= e.len(),
        members_fit(members, s.table.entries.len()),
        members_fit(members, s.diags.len()),
        members_fit(members, s.replays.len()),
        is_member(members.take(n as int), i),
        forall|j: int| 0 <= j < n && (#[trigger] members[j]).0 == i ==> e[j] == x,
    ensures
        replayed(s, members, e, n).table.entries[i] == Some(x.summary),
        replayed(s, members, e, n).diags[i] == x.analysis_diag,
        replayed(s, members, e, n).replays[i] == Some(
            ReplayV { findings: x.findings, diags: x.findings_diags },
        ),
    decreases n,
{
    let k = (n - 1) as nat;
    let j = choose|j: int|
        0 <= j < members.take(n as int).len() && (#[trigger] members.take(n as int)[j]).0 == i;
    assert(members.take(n as int)[j] == members[j]);
    lemma_replayed(s, members, e, k);
    assert(members[n - 1].0 < s.table.entries.len());
    assert(members[n - 1].0 < s.diags.len());
    assert(members[n - 1].0 < s.replays.len());
    if members[n - 1].0 == i {
        assert(e[n - 1] == x);
    } else {
        assert(j < k);
        assert(members.take(k as int)[j] == members[j]);
        lemma_replayed_at(s, members, e, k, i, x);
    }
}

/// Whether function `i` is in one of the first `k` components of `o`.
spec fn done(sccs: &Sccs, o: Seq<usize>, k: int, i: int) -> bool {
    exists|j: int| 0 <= j < k && is_member(#[trigger] sccs.schedule@[o[j] as int]@, i)
}

proof fn lemma_done(sccs: &Sccs, o: Seq<usize>, k: int, i: int)
    requires
        0 < k <= o.len(),
    ensures
        done(sccs, o, k, i) == (done(sccs, o, k - 1, i) || is_member(
            sccs.schedule@[o[k - 1] as int]@,
            i,
        )),
{
    if done(sccs, o, k, i) {
        let j = choose|j: int| 0 <= j < k && is_member(#[trigger] sccs.schedule@[o[j] as int]@, i);
        if j < k - 1 {
            assert(is_member(sccs.schedule@[o[j] as int]@, i));
        }
    }
    if done(sccs, o, k - 1, i) {
        let j = choose|j: int|
            0 <= j < k - 1 && is_member(#[trigger] sccs.schedule@[o[j] as int]@, i);
        assert(is_member(sccs.schedule@[o[j] as int]@, i));
    }
    if is_member(sccs.schedule@[o[k - 1] as int]@, i) {
        assert(done(sccs, o, k, i));
    }
}

/// Replaying a component does to the summaries what analysing it did.
proof fn lemma_step(
    p: &Program,
    members: Seq<FuncId>,
    c: TableV,
    c1: TableV,
    last: TableV,
    n: nat,
    w: RunV,
    d1: Seq<Option<Seq<char>>>,
    diags: Seq<Option<Seq<char>>>,
    outs: Seq<ReplayV>,
)
    requires
        w.table == c,
        framed(c, c1, members),
        said_framed(w.diags, d1, members),
        members_fit(members, n),
        n <= c.entries.len(),
        n <= u32::MAX,
        w.diags.len() == n,
        w.replays.len() == n,
        outs.len() == n,
        last.entries.len() == c.entries.len(),
        forall|i: int|
            0 <= i < n && #[trigger] is_member(members, i) ==> last.entries[i] == c1.entries[i]
                && last.entries[i] is Some && diags[i] == d1[i],
    ensures
        ({
            let e = component_entry(p, final_table(last, n), diags, outs, members);
            let r = replayed(w, members, e, members.len());
            &&& r.table == c1
            &&& r.diags == d1
            &&& r.asked == w.asked
            &&& r.fresh == w.fresh
            &&& r.hits == w.hits
            &&& r.misses == w.misses
            &&& r.replays.len() == n
            &&& forall|i: int|
                0 <= i < n ==> #[trigger] r.replays[i] == (if is_member(members, i) {
                    Some(outs[i])
                } else {
                    w.replays[i]
                })
        }),
{
    let t = final_table(last, n);
    let e = component_entry(p, t, diags, outs, members);
    let r = replayed(w, members, e, members.len());
    assert(members_fit(members, w.table.entries.len())) by {
        assert forall|j: int| 0 <= j < members.len() implies (#[trigger] members[j]).0
            < w.table.entries.len() by {}
    }
    lemma_replayed(w, members, e, members.len());
    assert(members.take(members.len() as int) =~= members);
    assert forall|i: int| 0 <= i < c1.entries.len() implies r.table.entries[i]
        == #[trigger] c1.entries[i] by {
        if is_member(members, i) {
            let j = choose|j: int| 0 <= j < members.len() && (#[trigger] members[j]).0 == i;
            assert(members[j].0 < n);
            lemma_at_member(p, w, members, t, diags, outs, i);
            assert(t.entries[i] == last.entries[i]);
        }
    }
    assert(r.table.entries =~= c1.entries);
    assert forall|i: int| 0 <= i < n implies #[trigger] r.diags[i] == d1[i] by {
        if is_member(members, i) {
            lemma_at_member(p, w, members, t, diags, outs, i);
        }
    }
    assert(r.diags =~= d1);
    assert forall|i: int| 0 <= i < n implies #[trigger] r.replays[i] == (if is_member(members, i) {
        Some(outs[i])
    } else {
        w.replays[i]
    }) by {
        if is_member(members, i) {
            lemma_at_member(p, w, members, t, diags, outs, i);
        }
    }
}

/// A cold analysis and a warm one go through the same summaries.
proof fn lemma_warm<C: Checker>(
    p: &Program,
    cold: InputV<C>,
    warm: InputV<C>,
    o: Seq<usize>,
    outs: Seq<ReplayV>,
    k: nat,
)
    requires
        input_fits(p, cold),
        cold.caching,
        forall|si: int| 0 <= si < cold.sccs.schedule@.len() ==> !#[trigger] is_hit(p, cold, si),
        warm == (InputV { found: warm.found, ..cold }),
        lists_all(o, cold.sccs.schedule@.len()),
        outs.len() == p.funcs@.len(),
        k <= o.len(),
        ({
            let last = after_wave(p, cold, o, start_of(p, cold), o.len());
            let t = final_table(last.table, p.funcs@.len());
            forall|si: int|
                0 <= si < cold.sccs.schedule@.len() ==> #[trigger] found_at(warm.found, si) == Some(
                    component_entry(p, t, last.diags, outs, cold.sccs.schedule@[si]@),
                )
        }),
    ensures
        ({
            let c = after_wave(p, cold, o, start_of(p, cold), k);
            let w = after_wave(p, warm, o, start_of(p, warm), k);
            &&& w.table == c.table
            &&& w.diags == c.diags
            &&& w.asked.len() == 0
            &&& w.hits == k
            &&& w.misses == 0
            &&& w.fresh == start_of(p, warm).fresh
            &&& w.replays.len() == p.funcs@.len()
            &&& forall|i: int|
                0 <= i < p.funcs@.len() ==> #[trigger] w.replays[i] == (if done(
                    &cold.sccs,
                    o,
                    k as int,
                    i,
                ) {
                    Some(outs[i])
                } else {
                    None::<ReplayV>
                })
        }),
    decreases k,
{
    let s0 = start_of(p, cold);
    assert(start_of(p, warm) == s0);
    if k > 0 {
        let h = (k - 1) as nat;
        lemma_warm(p, cold, warm, o, outs, h);
        lemma_cold(p, cold, o, h);
        lemma_cold(p, cold, o, o.len());
        let n = p.funcs@.len();
        let c = after_wave(p, cold, o, s0, h);
        let w = after_wave(p, warm, o, s0, h);
        let c1 = after_wave(p, cold, o, s0, k);
        let last = after_wave(p, cold, o, s0, o.len());
        let t = final_table(last.table, n);
        let si = o[k - 1] as int;
        let members = cold.sccs.schedule@[si]@;
        let e = component_entry(p, t, last.diags, outs, members);
        lemma_component_framed(p, cold, c, si);
        assert(found_at(warm.found, si) == Some(e));
        assert(entry_fits(p, members, e));
        assert(is_hit(p, warm, si));
        let w1 = after_wave(p, warm, o, s0, k);
        assert(w1 == (RunV { hits: w.hits + 1, ..replayed(w, members, e, members.len()) }));
        assert forall|i: int| 0 <= i < n && #[trigger] is_member(members, i) implies last.table.entries[i]
            == c1.table.entries[i] && last.table.entries[i] is Some && last.diags[i]
            == c1.diags[i] by {
            lemma_kept(p, cold, o, k - 1, o.len(), i);
        }
        lemma_step(p, members, c.table, c1.table, last.table, n, w, c1.diags, last.diags, outs);
        assert forall|i: int| 0 <= i < n implies #[trigger] w1.replays[i] == (if done(
            &cold.sccs,
            o,
            k as int,
            i,
        ) {
            Some(outs[i])
        } else {
            None::<ReplayV>
        }) by {
            lemma_done(&cold.sccs, o, k as int, i);
        }
    } else {
        assert forall|i: int| !done(&cold.sccs, o, 0, i) by {}
    }
}

/// What replaying a stored entry gives a member.
proof fn lemma_at_member(
    p: &Program,
    w: RunV,
    members: Seq<FuncId>,
    t: TableV,
    diags: Seq<Option<Seq<char>>>,
    outs: Seq<ReplayV>,
    i: int,
)
    requires
        members_fit(members, w.table.entries.len()),
        members_fit(members, w.diags.len()),
        members_fit(members, w.replays.len()),
        is_member(members, i),
        0 <= i <= u32::MAX,
    ensures
        ({
            let e = component_entry(p, t, diags, outs, members);
            let r = replayed(w, members, e, members.len());
            &&& r.table.entries[i] == Some(t.summary(FuncId(i as u32)))
            &&& r.diags[i] == diags[i]
            &&& r.replays[i] == Some(outs[i])
        }),
{
    let e = component_entry(p, t, diags, outs, members);
    let x = member_entry(p, t, diags, outs, FuncId(i as u32));
    assert(members.take(members.len() as int) =~= members);
    assert forall|j: int| 0 <= j < members.len() && (#[trigger] members[j]).0 == i implies e[j] == x by {
        assert(members[j] == FuncId(i as u32));
    }
    lemma_replayed_at(w, members, e, members.len(), i, x);
}

proof fn lemma_reports<C: Checker>(
    p: &Program,
    cold: InputV<C>,
    warm: InputV<C>,
    t: TableV,
    none: Seq<Option<ReplayV>>,
    replays: Seq<Option<ReplayV>>,
    outs: Seq<ReplayV>,
    n: nat,
)
    requires
        n <= none.len(),
        n <= replays.len(),
        n <= outs.len(),
        warm == (InputV { found: warm.found, ..cold }),
        forall|i: int| 0 <= i < n ==> (#[trigger] none[i]) is None,
        forall|i: int| 0 <= i < n ==> outs[i] == #[trigger] report_upto(p, cold, t, none, n).outs[i],
        forall|i: int|
            0 <= i < n ==> (#[trigger] replays[i] is Some ==> replays[i] == Some(outs[i])),
    ensures
        report_upto(p, cold, t, none, n).outs.len() == n,
        report_upto(p, warm, t, replays, n).findings == report_upto(p, cold, t, none, n).findings,
        report_upto(p, warm, t, replays, n).diags == report_upto(p, cold, t, none, n).diags,
        (forall|i: int| 0 <= i < n ==> (#[trigger] replays[i]) is Some) ==> report_upto(
            p,
            warm,
            t,
            replays,
            n,
        ).asked.len() == 0,
    decreases n,
{
    if n > 0 {
        let k = (n - 1) as nat;
        let a = report_upto(p, cold, t, none, n);
        let b = report_upto(p, cold, t, none, k);
        lemma_outs_len(p, cold, t, none, k);
        assert forall|i: int| 0 <= i < k implies outs[i] == #[trigger] b.outs[i] by {
            assert(a.outs[i] == b.outs[i]);
        }
        lemma_reports(p, cold, warm, t, none, replays, outs, k);
        assert(none[n - 1] is None);
        assert(a.outs[n - 1] == outs[n - 1]);
        if forall|i: int| 0 <= i < n ==> (#[trigger] replays[i]) is Some {
            assert(replays[n - 1] is Some);
        }
    }
}

proof fn lemma_outs_len<C: Checker>(
    p: &Program,
    inp: InputV<C>,
    t: TableV,
    replays: Seq<Option<ReplayV>>,
    n: nat,
)
    ensures
        report_upto(p, inp, t, replays, n).outs.len() == n,
    decreases n,
{
    if n > 0 {
        lemma_outs_len(p, inp, t, replays, (n - 1) as nat);
    }
}

proof fn lemma_fresh<C: Checker>(
    p: &Program,
    inp: InputV<C>,
    t: TableV,
    diags: Seq<Option<Seq<char>>>,
    outs: Seq<ReplayV>,
    fresh: Seq<bool>,
    n: nat,
)
    requires
        n <= fresh.len(),
        n <= usize::MAX,
        forall|i: int| 0 <= i < n ==> #[trigger] fresh[i],
    ensures
        ({
            let r = fresh_upto(p, &inp.sccs, t, diags, outs, fresh, n);
            &&& r.len() == n
            &&& forall|i: int|
                0 <= i < n ==> #[trigger] r[i] == (
                    i as usize,
                    component_entry(p, t, diags, outs, inp.sccs.schedule@[i]@),
                )
        }),
    decreases n,
{
    if n > 0 {
        lemma_fresh(p, inp, t, diags, outs, fresh, (n - 1) as nat);
        assert(fresh[n - 1]);
    }
}

proof fn lemma_no_fresh<C: Checker>(
    p: &Program,
    inp: InputV<C>,
    t: TableV,
    diags: Seq<Option<Seq<char>>>,
    outs: Seq<ReplayV>,
    fresh: Seq<bool>,
    n: nat,
)
    requires
        n <= fresh.len(),
        forall|i: int| 0 <= i < n ==> !#[trigger] fresh[i],
    ensures
        fresh_upto(p, &inp.sccs, t, diags, outs, fresh, n).len() == 0,
    decreases n,
{
    if n > 0 {
        lemma_no_fresh(p, inp, t, diags, outs, fresh, (n - 1) as nat);
        assert(!fresh[n - 1]);
    }
}

/// Whether what a first analysis left to be cached is what a second one finds.
pub open spec fn finds_stored(stored: AnalysisV, found: Seq<Option<Seq<MemberEntryV>>>) -> bool {
    forall|k: int|
        0 <= k < stored.fresh.len() ==> found_at(found, (#[trigger] stored.fresh[k]).0 as int) == Some(
            stored.fresh[k].1,
        )
}

/// An analysis that finds what an earlier one of the same program stored has the same
/// summaries, the same findings and the same diagnostics. The first analyses every component
/// and finds none; the second finds as many as the first analysed, and analyses none. It
/// infers nothing, and asks nothing at all if every function is in a component.
pub proof fn warm_analysis_replays<C: Checker>(p: &Program, cold: InputV<C>, warm: InputV<C>)
    requires
        input_fits(p, cold),
        cold.caching,
        forall|si: int| 0 <= si < cold.sccs.schedule@.len() ==> !#[trigger] is_hit(p, cold, si),
        warm == (InputV { found: warm.found, ..cold }),
        finds_stored(analysis(p, cold), warm.found),
    ensures
        ({
            let a = analysis(p, cold);
            let b = analysis(p, warm);
            &&& b.summaries == a.summaries
            &&& b.prepass == a.prepass
            &&& b.diagnostics == a.diagnostics
            &&& b.findings == a.findings
            &&& a.scc_cache_hits == 0
            &&& a.scc_cache_misses == b.scc_cache_hits
            &&& b.scc_cache_hits == cold.sccs.schedule@.len()
            &&& b.scc_cache_misses == 0
            &&& b.fresh.len() == 0
            &&& b.asked_infer.len() == 0
            &&& (forall|i: int| 0 <= i < p.funcs@.len() ==> #[trigger] scheduled(&cold.sccs, i))
                ==> b.asked_findings.len() == 0
        }),
{
    let n = p.funcs@.len();
    let m = cold.sccs.schedule@.len();
    let waves = waves_of(&cold.sccs);
    let o = flat(waves, waves.len());
    let s0 = start_of(p, cold);
    assert(m == cold.sccs.schedule.len());
    lemma_order(&cold.sccs, n);
    lemma_flat(p, cold, waves, s0, waves.len());
    lemma_flat(p, warm, waves, s0, waves.len());
    assert(start_of(p, warm) == s0);
    let last = after_wave(p, cold, o, s0, o.len());
    assert(fixpoint_of(p, cold) == last);
    let t = final_table(last.table, n);
    let rep = report_of(p, cold, last);
    let outs = rep.outs;
    let a = analysis(p, cold);
    lemma_cold(p, cold, o, o.len());
    lemma_outs_len(p, cold, t, last.replays, n);
    assert forall|i: int| 0 <= i < m implies #[trigger] last.fresh[i] by {
        assert(o.contains(i as usize));
        let j = choose|j: int| 0 <= j < o.len() && o[j] == i as usize;
        assert(last.fresh[o[j] as int]);
    }
    lemma_fresh(p, cold, t, last.diags, outs, last.fresh, m);
    assert forall|si: int| 0 <= si < m implies #[trigger] found_at(warm.found, si) == Some(
        component_entry(p, t, last.diags, outs, cold.sccs.schedule@[si]@),
    ) by {
        assert(a.fresh[si].0 == si as usize);
    }
    lemma_warm(p, cold, warm, o, outs, o.len());
    let w = after_wave(p, warm, o, s0, o.len());
    assert(fixpoint_of(p, warm) == w);
    lemma_count(o, m);
    if cold.checkers.len() > 0 {
        assert forall|i: int| 0 <= i < n implies (#[trigger] last.replays[i]) is None by {}
        lemma_reports(p, cold, warm, t, last.replays, w.replays, outs, n);
    }
    let b = analysis(p, warm);
    lemma_no_fresh(p, warm, t, w.diags, report_of(p, warm, w).outs, w.fresh, m);
    if forall|i: int| 0 <= i < n ==> #[trigger] scheduled(&cold.sccs, i) {
        assert forall|i: int| 0 <= i < n implies (#[trigger] w.replays[i]) is Some by {
            assert(scheduled(&cold.sccs, i));
            let si = choose|si: int| 0 <= si < m && is_member(#[trigger] cold.sccs.schedule@[si]@, i);
            assert(o.contains(si as usize));
            let j = choose|j: int| 0 <= j < o.len() && o[j] == si as usize;
            assert(is_member(cold.sccs.schedule@[o[j] as int]@, i));
            assert(done(&cold.sccs, o, o.len() as int, i));
        }
    }
    assert(b.summaries =~= a.summaries);
    assert(b.prepass =~= a.prepass);
}

/// A list that names each of `n` components once has length `n`.
proof fn lemma_count(o: Seq<usize>, n: nat)
    requires
        lists_all(o, n),
        n <= usize::MAX,
    ensures
        o.len() == n,
{
    let all = Set::new(|x: usize| 0 <= x < n);
    assert(o.to_set() =~= all) by {
        assert forall|x: usize| all.contains(x) implies o.to_set().contains(x) by {
            assert(o.contains(x as int as usize));
        }
        assert forall|x: usize| o.to_set().contains(x) implies all.contains(x) by {
            let i = choose|i: int| 0 <= i < o.len() && o[i] == x;
            assert(o[i] < n);
        }
    }
    assert(o.no_duplicates());
    o.unique_seq_to_set();
    lemma_below(n);
}

proof fn lemma_below(n: nat)
    requires
        n <= usize::MAX,
    ensures
        Set::new(|x: usize| 0 <= x < n).finite(),
        Set::new(|x: usize| 0 <= x < n).len() == n,
    decreases n,
{
    let s = Set::new(|x: usize| 0 <= x < n);
    if n == 0 {
        assert(s =~= Set::<usize>::empty());
    } else {
        let k = (n - 1) as nat;
        lemma_below(k);
        let b = Set::new(|x: usize| 0 <= x < k);
        assert(s =~= b.insert(k as usize));
    }
}

// ---- With and without a cache ----

/// Whether two states differ at most in what is noted for the cache.
spec fn same_but_notes(a: RunV, b: RunV) -> bool {
    a.table == b.table && a.asked == b.asked && a.diags == b.diags && a.replays == b.replays
}

proof fn lemma_wave_uncached<C: Checker>(
    p: &Program,
    a: InputV<C>,
    b: InputV<C>,
    wave: Seq<usize>,
    s: RunV,
    r: RunV,
    n: nat,
)
    requires
        b == (InputV { caching: b.caching, found: b.found, ..a }),
        forall|si: int| !#[trigger] is_hit(p, a, si),
        !b.caching,
        same_but_notes(s, r),
    ensures
        same_but_notes(after_wave(p, a, wave, s, n), after_wave(p, b, wave, r, n)),
        after_wave(p, b, wave, r, n).hits == r.hits,
        after_wave(p, b, wave, r, n).misses == r.misses,
        after_wave(p, b, wave, r, n).fresh == r.fresh,
    decreases n,
{
    if n > 0 {
        lemma_wave_uncached(p, a, b, wave, s, r, (n - 1) as nat);
        assert(!is_hit(p, a, wave[n - 1] as int));
        assert(!is_hit(p, b, wave[n - 1] as int));
    }
}

proof fn lemma_waves_uncached<C: Checker>(
    p: &Program,
    a: InputV<C>,
    b: InputV<C>,
    waves: Seq<Seq<usize>>,
    s: RunV,
    n: nat,
)
    requires
        b == (InputV { caching: b.caching, found: b.found, ..a }),
        forall|si: int| !#[trigger] is_hit(p, a, si),
        !b.caching,
    ensures
        same_but_notes(after_waves(p, a, waves, s, n), after_waves(p, b, waves, s, n)),
        after_waves(p, b, waves, s, n).hits == s.hits,
        after_waves(p, b, waves, s, n).misses == s.misses,
        after_waves(p, b, waves, s, n).fresh == s.fresh,
    decreases n,
{
    if n > 0 {
        let k = (n - 1) as nat;
        lemma_waves_uncached(p, a, b, waves, s, k);
        lemma_wave_uncached(
            p,
            a,
            b,
            waves[n - 1],
            after_waves(p, a, waves, s, k),
            after_waves(p, b, waves, s, k),
            waves[n - 1].len(),
        );
    }
}

proof fn lemma_report_uncached<C: Checker>(
    p: &Program,
    a: InputV<C>,
    b: InputV<C>,
    t: TableV,
    replays: Seq<Option<ReplayV>>,
    n: nat,
)
    requires
        b == (InputV { caching: b.caching, found: b.found, ..a }),
    ensures
        report_upto(p, a, t, replays, n) == report_upto(p, b, t, replays, n),
    decreases n,
{
    if n > 0 {
        lemma_report_uncached(p, a, b, t, replays, (n - 1) as nat);
    }
}

/// With an empty cache and without a cache the results are the same. Without one nothing is
/// counted and nothing is left to be cached.
pub proof fn uncached_analysis_is_the_same<C: Checker>(p: &Program, a: InputV<C>, b: InputV<C>)
    requires
        b == (InputV { caching: b.caching, found: b.found, ..a }),
        forall|si: int| !#[trigger] is_hit(p, a, si),
        !b.caching,
    ensures
        analysis(p, a).summaries == analysis(p, b).summaries,
        analysis(p, a).prepass == analysis(p, b).prepass,
        analysis(p, a).diagnostics == analysis(p, b).diagnostics,
        analysis(p, a).findings == analysis(p, b).findings,
        analysis(p, a).asked_infer == analysis(p, b).asked_infer,
        analysis(p, a).asked_findings == analysis(p, b).asked_findings,
        analysis(p, b).scc_cache_hits == 0,
        analysis(p, b).scc_cache_misses == 0,
        analysis(p, b).fresh.len() == 0,
{
    let waves = waves_of(&a.sccs);
    let s0 = start_of(p, a);
    assert(start_of(p, b) == s0);
    lemma_waves_uncached(p, a, b, waves, s0, waves.len());
    let s = fixpoint_of(p, a);
    let r = fixpoint_of(p, b);
    let n = p.funcs@.len();
    lemma_report_uncached(p, a, b, final_table(s.table, n), s.replays, n);
    lemma_no_fresh(
        p,
        b,
        final_table(r.table, n),
        r.diags,
        report_of(p, b, r).outs,
        r.fresh,
        b.sccs.schedule@.len(),
    );
}

/// The first analysis into an empty cache, a second one that finds what the first stored, and
/// one without a cache report the same: the same summaries, the same findings and the same
/// diagnostics. The first finds nothing in the cache, the second finds all that the first
/// analysed and analyses nothing, and the one without a cache counts nothing.
pub proof fn cold_warm_and_uncached_agree<C: Checker>(
    p: &Program,
    cold: InputV<C>,
    warm: InputV<C>,
    plain: InputV<C>,
)
    requires
        input_fits(p, cold),
        cold.caching,
        forall|si: int| (#[trigger] found_at(cold.found, si)) is None,
        warm == (InputV { found: warm.found, ..cold }),
        finds_stored(analysis(p, cold), warm.found),
        plain == (InputV { caching: false, found: plain.found, ..cold }),
    ensures
        ({
            let a1 = analysis(p, cold);
            let a2 = analysis(p, warm);
            let a0 = analysis(p, plain);
            &&& a1.summaries == a2.summaries && a2.summaries == a0.summaries
            &&& a1.prepass == a2.prepass && a2.prepass == a0.prepass
            &&& a1.findings == a2.findings && a2.findings == a0.findings
            &&& a1.diagnostics == a2.diagnostics && a2.diagnostics == a0.diagnostics
            &&& a1.scc_cache_hits == 0
            &&& a2.scc_cache_misses == 0
            &&& a2.scc_cache_hits == a1.scc_cache_misses
            &&& a0.scc_cache_hits == 0
            &&& a0.scc_cache_misses == 0
        }),
{
    assert forall|si: int| !#[trigger] is_hit(p, cold, si) by {
        assert(found_at(cold.found, si) is None);
    }
    warm_analysis_replays(p, cold, warm);
    uncached_analysis_is_the_same(p, cold, plain);
}

} // verus!
