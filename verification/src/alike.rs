//! What results do not depend on: annotations that switch checkers off, and what a checker
//! finds or fails to find in other functions.

use vstd::prelude::*;
use crate::annotations::Annotations;
use crate::checker::Checker;
use crate::contracts::contracts_upto;
use crate::encode::EncodedV;
use crate::engine::{
    after_component, after_wave, after_waves, analysis, final_table, fixpoint_of, is_hit,
    report_upto, start_of, waves_of, InputV, ReplayV, RunV,
};
use crate::faults::findings_fault;
use crate::findings::{
    call_contracts, checkers_asked, checkers_upto, checking_failed, findings_asked, findings_diags,
    function_findings, unsorted_findings, usable,
};
use crate::fixpoint::{
    analysis_fails, ensures_upto, function_asked, function_summary, inference_asked,
    inference_failed, is_recursive, requires_upto, round_upto, settled, started, widened, AnswersV,
    ComponentV,
};
use crate::ir::{CallGraph, FuncId, Function, Program};
use crate::query::SatResult;
use crate::shared::clause_terms;
use crate::summary::{summary_havoc_with, TableV};
use crate::term::TermV;

verus! {

/// Whether two sets of annotations state the same of every function. They may differ in the
/// checkers that they switch off.
pub open spec fn state_alike(a: &Annotations, b: &Annotations) -> bool {
    &&& a.funcs@.len() == b.funcs@.len()
    &&& forall|f: FuncId|
        match (#[trigger] a.of(f), b.of(f)) {
            (None, None) => true,
            (Some(x), Some(y)) => x.requires_@ == y.requires_@ && x.ensures_@ == y.ensures_@,
            _ => false,
        }
}

/// Whether two checkers infer the same of every function.
pub open spec fn infers_alike<C: Checker, D: Checker>(p: &Program, c: C, d: D) -> bool {
    &&& forall|f: FuncId, t: TableV| #[trigger]
        c.requires_asked(p, f, t) == d.requires_asked(p, f, t)
    &&& forall|f: FuncId, t: TableV| #[trigger]
        c.ensures_asked(p, f, t) == d.ensures_asked(p, f, t)
    &&& forall|f: FuncId, t: TableV, v: Seq<SatResult>| #[trigger]
        c.requires_of(p, f, t, v) == d.requires_of(p, f, t, v)
    &&& forall|f: FuncId, t: TableV, v: Seq<SatResult>| #[trigger]
        c.ensures_skipped(p, f, t, v) == d.ensures_skipped(p, f, t, v)
    &&& forall|f: FuncId, t: TableV, v: Seq<SatResult>| #[trigger]
        c.ensures_of(p, f, t, v) == d.ensures_of(p, f, t, v)
    &&& forall|f: FuncId, t: TableV, rv: Seq<SatResult>, ev: Seq<SatResult>| #[trigger]
        c.fails_inferring(p, f, t, rv, ev) == d.fails_inferring(p, f, t, rv, ev)
}

/// Whether two lists of checkers infer the same of every function.
pub open spec fn infer_alike<C: Checker, D: Checker>(p: &Program, cs: Seq<C>, ds: Seq<D>) -> bool {
    &&& cs.len() == ds.len()
    &&& forall|i: int| 0 <= i < cs.len() ==> infers_alike(p, #[trigger] cs[i], ds[i])
}

/// Whether two checkers look for the same in `f`.
pub open spec fn checks_alike<C: Checker, D: Checker>(p: &Program, f: FuncId, c: C, d: D) -> bool {
    &&& c.name_of() == d.name_of()
    &&& forall|t: TableV| #[trigger] c.obligations_of(p, f, t) == d.obligations_of(p, f, t)
    &&& forall|t: TableV| #[trigger] c.fails_checking(p, f, t) == d.fails_checking(p, f, t)
}

/// Whether two lists of checkers look for the same in `f`.
pub open spec fn check_alike<C: Checker, D: Checker>(
    p: &Program,
    f: FuncId,
    cs: Seq<C>,
    ds: Seq<D>,
) -> bool {
    &&& cs.len() == ds.len()
    &&& forall|i: int| 0 <= i < cs.len() ==> checks_alike(p, f, #[trigger] cs[i], ds[i])
}

/// Whether two analyses are given the same, but for checkers that infer the same and
/// annotations that state the same.
pub open spec fn given_alike<C: Checker, D: Checker>(
    p: &Program,
    a: InputV<C>,
    b: InputV<D>,
) -> bool {
    &&& a.graph == b.graph
    &&& a.sccs == b.sccs
    &&& infer_alike(p, a.checkers, b.checkers)
    &&& state_alike(&a.anns, &b.anns)
    &&& a.widen_after == b.widen_after
    &&& a.caching == b.caching
    &&& a.found == b.found
    &&& a.infer == b.infer
    &&& a.report == b.report
}

// ---- Summaries ----

proof fn lemma_inferred<C: Checker, D: Checker>(
    p: &Program,
    f: FuncId,
    t: TableV,
    cs: Seq<C>,
    ds: Seq<D>,
    m: AnswersV,
    n: nat,
)
    requires
        infer_alike(p, cs, ds),
        n <= cs.len(),
    ensures
        requires_upto(p, f, t, cs, m, n) == requires_upto(p, f, t, ds, m, n),
        ensures_upto(p, f, t, cs, m, n) == ensures_upto(p, f, t, ds, m, n),
        inference_failed(p, f, t, cs, m, n) == inference_failed(p, f, t, ds, m, n),
        inference_asked(p, f, t, cs, m, n) == inference_asked(p, f, t, ds, m, n),
    decreases n,
{
    if n > 0 {
        lemma_inferred(p, f, t, cs, ds, m, (n - 1) as nat);
        assert(infers_alike(p, cs[n - 1], ds[n - 1]));
    }
}

proof fn lemma_function<C: Checker, D: Checker>(
    p: &Program,
    g: &CallGraph,
    f: FuncId,
    t: TableV,
    cs: Seq<C>,
    ds: Seq<D>,
    m: AnswersV,
    x: &Annotations,
    y: &Annotations,
)
    requires
        infer_alike(p, cs, ds),
        state_alike(x, y),
    ensures
        function_summary(p, g, f, t, cs, m, x.of(f)) == function_summary(
            p,
            g,
            f,
            t,
            ds,
            m,
            y.of(f),
        ),
        function_asked(p, f, t, cs, m) == function_asked(p, f, t, ds, m),
        analysis_fails(p, f, t, cs, m) == analysis_fails(p, f, t, ds, m),
{
    lemma_inferred(p, f, t, cs, ds, m, cs.len());
}

proof fn lemma_round<C: Checker, D: Checker>(
    p: &Program,
    g: &CallGraph,
    members: Seq<FuncId>,
    cs: Seq<C>,
    ds: Seq<D>,
    m: AnswersV,
    x: &Annotations,
    y: &Annotations,
    s: ComponentV,
    n: nat,
)
    requires
        infer_alike(p, cs, ds),
        state_alike(x, y),
    ensures
        round_upto(p, g, members, cs, m, x, s, n) == round_upto(p, g, members, ds, m, y, s, n),
    decreases n,
{
    if n > 0 {
        lemma_round(p, g, members, cs, ds, m, x, y, s, (n - 1) as nat);
        let b = round_upto(p, g, members, cs, m, x, s, (n - 1) as nat);
        lemma_function(p, g, members[n - 1], b.table, cs, ds, m, x, y);
    }
}

proof fn lemma_widened(t: TableV, members: Seq<FuncId>, x: &Annotations, y: &Annotations, n: nat)
    requires
        state_alike(x, y),
    ensures
        widened(t, members, x, n) == widened(t, members, y, n),
    decreases n,
{
    if n > 0 {
        lemma_widened(t, members, x, y, (n - 1) as nat);
        assert(summary_havoc_with(x.of(members[n - 1])) == summary_havoc_with(y.of(members[n - 1])));
    }
}

proof fn lemma_settled<C: Checker, D: Checker>(
    p: &Program,
    g: &CallGraph,
    members: Seq<FuncId>,
    cs: Seq<C>,
    ds: Seq<D>,
    m: AnswersV,
    x: &Annotations,
    y: &Annotations,
    recursive: bool,
    widen_after: nat,
    s: ComponentV,
    rounds: nat,
)
    requires
        infer_alike(p, cs, ds),
        state_alike(x, y),
    ensures
        settled(p, g, members, cs, m, x, recursive, widen_after, s, rounds) == settled(
            p,
            g,
            members,
            ds,
            m,
            y,
            recursive,
            widen_after,
            s,
            rounds,
        ),
    decreases widen_after - rounds,
{
    lemma_round(p, g, members, cs, ds, m, x, y, s, members.len());
    let r = round_upto(p, g, members, cs, m, x, s, members.len());
    if !recursive || !r.changed {
    } else if rounds >= widen_after {
        lemma_widened(r.table, members, x, y, members.len());
    } else {
        lemma_settled(p, g, members, cs, ds, m, x, y, recursive, widen_after, r, rounds + 1);
    }
}

proof fn lemma_component<C: Checker, D: Checker>(
    p: &Program,
    a: InputV<C>,
    b: InputV<D>,
    s: RunV,
    si: int,
)
    requires
        given_alike(p, a, b),
    ensures
        after_component(p, a, s, si) == after_component(p, b, s, si),
{
    let members = a.sccs.schedule@[si]@;
    assert(is_hit(p, a, si) == is_hit(p, b, si));
    lemma_settled(
        p,
        &a.graph,
        members,
        a.checkers,
        b.checkers,
        a.infer,
        &a.anns,
        &b.anns,
        is_recursive(&a.graph, members),
        a.widen_after,
        (ComponentV {
            table: started(s.table, members, members.len()),
            asked: s.asked,
            diags: s.diags,
            changed: false,
        }),
        0,
    );
}

proof fn lemma_wave<C: Checker, D: Checker>(
    p: &Program,
    a: InputV<C>,
    b: InputV<D>,
    wave: Seq<usize>,
    s: RunV,
    n: nat,
)
    requires
        given_alike(p, a, b),
    ensures
        after_wave(p, a, wave, s, n) == after_wave(p, b, wave, s, n),
    decreases n,
{
    if n > 0 {
        let k = (n - 1) as nat;
        lemma_wave(p, a, b, wave, s, k);
        lemma_component(p, a, b, after_wave(p, a, wave, s, k), wave[n - 1] as int);
    }
}

proof fn lemma_waves<C: Checker, D: Checker>(
    p: &Program,
    a: InputV<C>,
    b: InputV<D>,
    waves: Seq<Seq<usize>>,
    s: RunV,
    n: nat,
)
    requires
        given_alike(p, a, b),
    ensures
        after_waves(p, a, waves, s, n) == after_waves(p, b, waves, s, n),
    decreases n,
{
    if n > 0 {
        let k = (n - 1) as nat;
        lemma_waves(p, a, b, waves, s, k);
        lemma_wave(p, a, b, waves[n - 1], after_waves(p, a, waves, s, k), waves[n - 1].len());
    }
}

proof fn lemma_start<C: Checker, D: Checker>(p: &Program, a: InputV<C>, b: InputV<D>)
    requires
        given_alike(p, a, b),
    ensures
        start_of(p, a) == start_of(p, b),
{
    let x = start_of(p, a);
    let y = start_of(p, b);
    assert forall|i: int| 0 <= i < x.table.entries.len() implies #[trigger] x.table.entries[i]
        == y.table.entries[i] by {
        let f = FuncId(i as u32);
        assert(summary_havoc_with(a.anns.of(f)) == summary_havoc_with(b.anns.of(f)));
    }
    assert(x.table.entries =~= y.table.entries);
    assert(x.diags =~= y.diags);
    assert(x.replays =~= y.replays);
    assert(x.fresh =~= y.fresh);
}

proof fn lemma_fixpoint<C: Checker, D: Checker>(p: &Program, a: InputV<C>, b: InputV<D>)
    requires
        given_alike(p, a, b),
    ensures
        fixpoint_of(p, a) == fixpoint_of(p, b),
{
    let waves = waves_of(&a.sccs);
    lemma_start(p, a, b);
    lemma_waves(p, a, b, waves, start_of(p, a), waves.len());
}

// ---- Findings ----

proof fn lemma_contracts(
    p: &Program,
    f: &Function,
    e: EncodedV,
    pre: Seq<TermV>,
    x: &Annotations,
    y: &Annotations,
    t: TableV,
    k: int,
)
    requires
        state_alike(x, y),
    ensures
        contracts_upto(p, f, e, pre, x, t, k) == contracts_upto(p, f, e, pre, y, t, k),
    decreases k,
{
    if k > 0 {
        lemma_contracts(p, f, e, pre, x, y, t, k - 1);
    }
}

proof fn lemma_checked<C: Checker, D: Checker>(
    p: &Program,
    f: FuncId,
    t: TableV,
    cs: Seq<C>,
    ds: Seq<D>,
    m: AnswersV,
    n: nat,
)
    requires
        check_alike(p, f, cs, ds),
        n <= cs.len(),
    ensures
        checkers_upto(p, f, t, cs, m, n) == checkers_upto(p, f, t, ds, m, n),
        checking_failed(p, f, t, cs, n) == checking_failed(p, f, t, ds, n),
        checkers_asked(p, f, t, cs, n) == checkers_asked(p, f, t, ds, n),
    decreases n,
{
    if n > 0 {
        lemma_checked(p, f, t, cs, ds, m, (n - 1) as nat);
        assert(checks_alike(p, f, cs[n - 1], ds[n - 1]));
    }
}

proof fn lemma_findings<C: Checker, D: Checker>(
    p: &Program,
    f: FuncId,
    t: TableV,
    cs: Seq<C>,
    ds: Seq<D>,
    m: AnswersV,
    x: &Annotations,
    y: &Annotations,
)
    requires
        check_alike(p, f, cs, ds),
        state_alike(x, y),
    ensures
        function_findings(p, f, t, cs, m, x) == function_findings(p, f, t, ds, m, y),
        findings_asked(p, f, t, cs, m, x) == findings_asked(p, f, t, ds, m, y),
        findings_diags(p, f, t, cs) == findings_diags(p, f, t, ds),
{
    lemma_checked(p, f, t, cs, ds, m, cs.len());
    if let (Some(func), Some(e)) = (p.body(f), usable(p, f, t)) {
        let own = clause_terms(t.summary(f).requires_);
        lemma_contracts(p, &func, e, own, x, y, t, func.sites().len() as int);
    }
    assert(call_contracts(p, f, t, x) == call_contracts(p, f, t, y));
    assert(unsorted_findings(p, f, t, cs, m, x) == unsorted_findings(p, f, t, ds, m, y));
}

proof fn lemma_reports<C: Checker>(
    p: &Program,
    a: InputV<C>,
    b: InputV<C>,
    t: TableV,
    replays: Seq<Option<ReplayV>>,
    n: nat,
)
    requires
        b == (InputV { anns: b.anns, ..a }),
        state_alike(&a.anns, &b.anns),
    ensures
        report_upto(p, a, t, replays, n) == report_upto(p, b, t, replays, n),
    decreases n,
{
    if n > 0 {
        lemma_reports(p, a, b, t, replays, (n - 1) as nat);
        let f = FuncId((n - 1) as u32);
        lemma_findings(p, f, t, a.checkers, b.checkers, a.report, &a.anns, &b.anns);
    }
}

// ---- Laws ----

/// Switching checkers off by annotations changes nothing in an analysis: summaries, findings,
/// diagnostics, questions and cached results are the same. What is switched off is left out
/// only when findings are shown.
pub proof fn ignores_change_nothing<C: Checker>(p: &Program, a: InputV<C>, b: InputV<C>)
    requires
        b == (InputV { anns: b.anns, ..a }),
        state_alike(&a.anns, &b.anns),
    ensures
        analysis(p, b) == analysis(p, a),
{
    lemma_fixpoint(p, a, b);
    let s = fixpoint_of(p, a);
    let n = p.funcs@.len();
    lemma_reports(p, a, b, final_table(s.table, n), s.replays, n);
}

/// Checkers that differ only in what they look for in `f`, one of them because it fails there,
/// come to the same summaries, the same findings in every other function, and the same
/// diagnostics of it. Where a checker fails to check `f`, the findings in `f` are lost, and
/// that is said.
pub proof fn lost_findings_cost_no_others<C: Checker, D: Checker>(
    p: &Program,
    a: InputV<C>,
    b: InputV<D>,
    f: FuncId,
)
    requires
        given_alike(p, a, b),
        forall|g: FuncId| g != f ==> #[trigger] check_alike(p, g, a.checkers, b.checkers),
    ensures
        fixpoint_of(p, b) == fixpoint_of(p, a),
        analysis(p, b).summaries == analysis(p, a).summaries,
        analysis(p, b).prepass == analysis(p, a).prepass,
        analysis(p, b).asked_infer == analysis(p, a).asked_infer,
        forall|g: FuncId, t: TableV|
            #![trigger function_findings(p, g, t, b.checkers, b.report, &b.anns)]
            #![trigger findings_diags(p, g, t, b.checkers)]
            g != f ==> {
                &&& function_findings(p, g, t, b.checkers, b.report, &b.anns) == function_findings(
                    p,
                    g,
                    t,
                    a.checkers,
                    a.report,
                    &a.anns,
                )
                &&& findings_diags(p, g, t, b.checkers) == findings_diags(p, g, t, a.checkers)
            },
        forall|t: TableV| #[trigger]
            checking_failed(p, f, t, b.checkers, b.checkers.len()) ==> {
                &&& function_findings(p, f, t, b.checkers, b.report, &b.anns).len() == 0
                &&& findings_diags(p, f, t, b.checkers).last() == findings_fault(p, f)
            },
{
    lemma_fixpoint(p, a, b);
    assert(analysis(p, b).summaries =~= analysis(p, a).summaries);
    assert(analysis(p, b).prepass =~= analysis(p, a).prepass);
    assert forall|g: FuncId, t: TableV|
        #![trigger function_findings(p, g, t, b.checkers, b.report, &b.anns)]
        #![trigger findings_diags(p, g, t, b.checkers)]
        g != f implies {
        &&& function_findings(p, g, t, b.checkers, b.report, &b.anns) == function_findings(
            p,
            g,
            t,
            a.checkers,
            a.report,
            &a.anns,
        )
        &&& findings_diags(p, g, t, b.checkers) == findings_diags(p, g, t, a.checkers)
    } by {
        assert(check_alike(p, g, a.checkers, b.checkers));
        lemma_findings(p, g, t, a.checkers, b.checkers, a.report, &a.anns, &b.anns);
    }
}

} // verus!
