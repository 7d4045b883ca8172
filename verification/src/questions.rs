//! An analysis asks nothing but well formed questions, and ends with summaries that fit.

use vstd::prelude::*;
use crate::annotations::{ann_clauses, AnnClause, Annotations, FuncAnnotations};
use crate::answers::{asked_texts, texts_of, verdicts_on};
use crate::asked::{
    all_askable, all_formed, asks_well, checkers_ask_well, clauses_fit, lemma_facts_push,
    lemma_own_facts, lemma_table_ensures, params_named, table_fits,
};
use crate::checker::{Checker, ObligationV};
use crate::checkers::AnyChecker;
use crate::contracts::{
    clause_queries, contract_at, contract_obligation, contracts_upto, return_queries, return_query,
    verify_skipped,
};
use crate::effects::collected;
use crate::encode::{encoded_decls, encoding_with, values_at, EncodedV};
use crate::engine::{
    after_component, after_wave, after_waves, analysis, depths_of, final_table, found_at,
    input_fits, is_hit, lemma_depths, replayed, report_upto, start_of, unknown_table, waves_of,
    InputV, ReplayV, RunV,
};
use crate::findings::{
    call_contracts, checkers_asked, findings_asked, guarantees_asked, guarantees_texts,
    obligation_queries, usable,
};
use crate::fixpoint::{
    ensures_upto, function_asked, function_summary, inference_asked, is_recursive, members_fit,
    requires_upto, round_upto, settled, started, widened, with_summary, AnswersV, ComponentV,
};
use crate::formed::{
    bound_clause_is_a_fact, distinct, enc_good, fact, facts, good_slots, lemma_encoding_with_good,
    lemma_reach_formed, well_formed,
};
use crate::ir::{Callee, CallGraph, FuncId, Function, Op, Program, Site, ValueId};
use crate::query::{query_text, QueryV};
use crate::rets::{ret_sites, returned};
use crate::scc_cache::MemberEntryV;
use crate::shared::clause_terms;
use crate::summary::{
    bound_clause, merged, summary_default, summary_havoc, summary_merged, ClauseV, Provenance,
    SummaryV, TableV,
};
use crate::term::TermV;

verus! {

/// Whether `x` is the text of a well formed query.
pub open spec fn is_question(x: Seq<char>) -> bool {
    exists|q: QueryV| x == #[trigger] query_text(q) && well_formed(q)
}

/// Whether all texts are those of well formed queries.
pub open spec fn all_questions(s: Seq<Seq<char>>) -> bool {
    forall|i: int| 0 <= i < s.len() ==> is_question(#[trigger] s[i])
}

/// Whether what annotations say of each function fits it.
pub open spec fn anns_fit(p: &Program, anns: &Annotations) -> bool {
    forall|f: FuncId| #[trigger]
        anns.of(f) matches Some(a) ==> clauses_fit(
            p,
            f,
            ann_clauses(a.requires_@),
            ann_clauses(a.ensures_@),
        )
}

/// Whether the clauses of a summary fit `f`.
pub open spec fn summary_fits(p: &Program, f: FuncId, s: SummaryV) -> bool {
    clauses_fit(p, f, s.requires_, s.ensures_)
}

/// Whether the summaries of a cached component fit its members.
pub open spec fn entry_summaries_fit(p: &Program, members: Seq<FuncId>, e: Seq<MemberEntryV>) -> bool {
    forall|i: int| 0 <= i < members.len() ==> summary_fits(p, #[trigger] members[i], e[i].summary)
}

/// Whether that holds of every component that comes from the cache.
pub open spec fn found_fits<C>(p: &Program, inp: InputV<C>) -> bool {
    forall|si: int| #[trigger]
        is_hit(p, inp, si) ==> entry_summaries_fit(
            p,
            inp.sccs.schedule@[si]@,
            found_at(inp.found, si).unwrap(),
        )
}

/// Whether all checkers ask well wherever summaries fit.
pub open spec fn all_ask_well<C: Checker>(p: &Program, cs: Seq<C>) -> bool {
    forall|i: int, f: FuncId, t: TableV|
        0 <= i < cs.len() && table_fits(p, t) ==> #[trigger] asks_well(cs[i], p, f, t)
}

/// Whether summaries fit and every function has a place in the table.
pub open spec fn full_table(p: &Program, t: TableV) -> bool {
    table_fits(p, t) && p.funcs@.len() <= t.entries.len()
}

proof fn lemma_texts(qs: Seq<QueryV>)
    requires
        all_formed(qs),
    ensures
        all_questions(texts_of(qs)),
{
    assert forall|i: int| 0 <= i < qs.len() implies is_question(#[trigger] texts_of(qs)[i]) by {
        assert(texts_of(qs)[i] == query_text(qs[i]));
    }
}

proof fn lemma_asked_texts(qs: Seq<QueryV>, skipped: Seq<bool>, n: nat)
    requires
        all_formed(qs),
        n <= qs.len(),
    ensures
        all_questions(asked_texts(qs, skipped, n)),
    decreases n,
{
    if n > 0 {
        lemma_asked_texts(qs, skipped, (n - 1) as nat);
        assert(well_formed(qs[n - 1]));
        assert(is_question(query_text(qs[n - 1])));
    }
}

proof fn lemma_obligation_texts(obs: Seq<ObligationV>)
    requires
        all_askable(obs),
    ensures
        all_questions(texts_of(obligation_queries(obs))),
{
    let qs = obligation_queries(obs);
    assert forall|i: int| 0 <= i < qs.len() implies well_formed(#[trigger] qs[i]) by {
        assert(qs[i] == obs[i].query);
    }
    lemma_texts(qs);
}

// ---- Summaries ----

proof fn lemma_fit_append(
    p: &Program,
    f: FuncId,
    r0: Seq<ClauseV>,
    e0: Seq<ClauseV>,
    r1: Seq<ClauseV>,
    e1: Seq<ClauseV>,
)
    requires
        clauses_fit(p, f, r0, e0),
        clauses_fit(p, f, r1, e1),
    ensures
        clauses_fit(p, f, r0 + r1, e0 + e1),
{
}

proof fn lemma_merged_from(s: Seq<ClauseV>, ann: Seq<ClauseV>, n: int)
    requires
        n <= ann.len(),
    ensures
        forall|i: int|
            0 <= i < merged(s, ann, n).len() ==> s.contains(#[trigger] merged(s, ann, n)[i])
                || ann.contains(merged(s, ann, n)[i]),
    decreases n,
{
    if n > 0 {
        lemma_merged_from(s, ann, n - 1);
        let before = merged(s, ann, n - 1);
        assert(ann.contains(ann[n - 1]));
        assert forall|i: int| 0 <= i < merged(s, ann, n).len() implies s.contains(
            #[trigger] merged(s, ann, n)[i],
        ) || ann.contains(merged(s, ann, n)[i]) by {
            if i < before.len() {
                assert(merged(s, ann, n)[i] == before[i]);
            }
        }
    } else {
        assert forall|i: int| 0 <= i < s.len() implies s.contains(#[trigger] s[i]) by {}
    }
}

proof fn lemma_merged_fits(p: &Program, f: FuncId, s: SummaryV, ann: Option<FuncAnnotations>)
    requires
        summary_fits(p, f, s),
        ann matches Some(a) ==> clauses_fit(
            p,
            f,
            ann_clauses(a.requires_@),
            ann_clauses(a.ensures_@),
        ),
    ensures
        summary_fits(p, f, summary_merged(s, ann)),
{
    if let Some(a) = ann {
        let ar = ann_clauses(a.requires_@);
        let ae = ann_clauses(a.ensures_@);
        lemma_merged_from(s.requires_, ar, ar.len() as int);
        lemma_merged_from(s.ensures_, ae, ae.len() as int);
        let m = summary_merged(s, ann);
        assert forall|i: int| 0 <= i < m.ensures_.len() implies (
        #[trigger] m.ensures_[i]).term.well_sorted() by {
            let c = m.ensures_[i];
            if s.ensures_.contains(c) {
                let j = choose|j: int| 0 <= j < s.ensures_.len() && s.ensures_[j] == c;
                assert(s.ensures_[j].term.well_sorted());
            } else {
                let j = choose|j: int| 0 <= j < ae.len() && ae[j] == c;
                assert(ae[j].term.well_sorted());
            }
        }
        assert forall|i: int| 0 <= i < m.requires_.len() implies (
        #[trigger] m.requires_[i]).term.well_sorted() && (p.body(f) matches Some(b)
            ==> fact(m.requires_[i].term, encoded_decls(p, &b).consts)) by {
            let c = m.requires_[i];
            if s.requires_.contains(c) {
                let j = choose|j: int| 0 <= j < s.requires_.len() && s.requires_[j] == c;
                assert(s.requires_[j].term.well_sorted());
            } else {
                let j = choose|j: int| 0 <= j < ar.len() && ar[j] == c;
                assert(ar[j].term.well_sorted());
            }
        }
    }
}

proof fn lemma_with_summary(p: &Program, t: TableV, f: FuncId, s: SummaryV)
    requires
        full_table(p, t),
        f.0 < p.funcs@.len(),
        summary_fits(p, f, s),
    ensures
        full_table(p, with_summary(t, f, s)),
{
    let u = with_summary(t, f, s);
    assert forall|g: FuncId|
        clauses_fit(p, g, (#[trigger] u.summary(g)).requires_, u.summary(g).ensures_) by {
        assert(clauses_fit(p, g, t.summary(g).requires_, t.summary(g).ensures_));
        if g.0 < t.entries.len() {
            if g.0 == f.0 {
                assert(g == f);
                assert(u.summary(g) == s);
            } else {
                assert(u.entries[g.0 as int] == t.entries[g.0 as int]);
            }
        }
    }
}

proof fn lemma_inferred<C: Checker>(
    p: &Program,
    f: FuncId,
    t: TableV,
    cs: Seq<C>,
    m: AnswersV,
    n: nat,
)
    requires
        table_fits(p, t),
        all_ask_well(p, cs),
        n <= cs.len(),
    ensures
        clauses_fit(p, f, requires_upto(p, f, t, cs, m, n), ensures_upto(p, f, t, cs, m, n)),
        all_questions(inference_asked(p, f, t, cs, m, n)),
    decreases n,
{
    if n > 0 {
        let k = (n - 1) as nat;
        let c = cs[n - 1];
        lemma_inferred(p, f, t, cs, m, k);
        assert(asks_well(cs[n - 1], p, f, t));
        let rq = c.requires_asked(p, f, t);
        let eq = c.ensures_asked(p, f, t);
        lemma_fit_append(
            p,
            f,
            requires_upto(p, f, t, cs, m, k),
            ensures_upto(p, f, t, cs, m, k),
            c.requires_of(p, f, t, verdicts_on(m, rq)),
            c.ensures_of(p, f, t, verdicts_on(m, eq)),
        );
        lemma_texts(rq);
        lemma_asked_texts(eq, c.ensures_skipped(p, f, t, verdicts_on(m, eq)), eq.len());
    }
}

proof fn lemma_function<C: Checker>(
    p: &Program,
    g: &CallGraph,
    f: FuncId,
    t: TableV,
    cs: Seq<C>,
    m: AnswersV,
    anns: &Annotations,
)
    requires
        table_fits(p, t),
        anns_fit(p, anns),
        all_ask_well(p, cs),
    ensures
        summary_fits(p, f, function_summary(p, g, f, t, cs, m, anns.of(f))),
        all_questions(function_asked(p, f, t, cs, m)),
{
    lemma_inferred(p, f, t, cs, m, cs.len());
    lemma_merged_fits(p, f, summary_havoc(), anns.of(f));
    let s = SummaryV {
        requires_: requires_upto(p, f, t, cs, m, cs.len()),
        ensures_: ensures_upto(p, f, t, cs, m, cs.len()),
        effects: collected(p, f, g, t),
        provenance: Provenance::Inferred,
    };
    lemma_merged_fits(p, f, s, anns.of(f));
}

// ---- Components ----

proof fn lemma_round<C: Checker>(
    p: &Program,
    g: &CallGraph,
    members: Seq<FuncId>,
    cs: Seq<C>,
    m: AnswersV,
    anns: &Annotations,
    s: ComponentV,
    n: nat,
)
    requires
        members_fit(members, p.funcs@.len()),
        n <= members.len(),
        full_table(p, s.table),
        all_questions(s.asked),
        anns_fit(p, anns),
        all_ask_well(p, cs),
    ensures
        ({
            let r = round_upto(p, g, members, cs, m, anns, s, n);
            full_table(p, r.table) && all_questions(r.asked)
        }),
    decreases n,
{
    if n > 0 {
        lemma_round(p, g, members, cs, m, anns, s, (n - 1) as nat);
        let b = round_upto(p, g, members, cs, m, anns, s, (n - 1) as nat);
        let f = members[n - 1];
        lemma_function(p, g, f, b.table, cs, m, anns);
        lemma_with_summary(
            p,
            b.table,
            f,
            function_summary(p, g, f, b.table, cs, m, anns.of(f)),
        );
    }
}

proof fn lemma_started(p: &Program, t: TableV, members: Seq<FuncId>, n: nat)
    requires
        members_fit(members, p.funcs@.len()),
        n <= members.len(),
        full_table(p, t),
    ensures
        full_table(p, started(t, members, n)),
    decreases n,
{
    if n > 0 {
        lemma_started(p, t, members, (n - 1) as nat);
        lemma_with_summary(
            p,
            started(t, members, (n - 1) as nat),
            members[n - 1],
            summary_default(),
        );
    }
}

proof fn lemma_widened(p: &Program, t: TableV, members: Seq<FuncId>, anns: &Annotations, n: nat)
    requires
        members_fit(members, p.funcs@.len()),
        n <= members.len(),
        full_table(p, t),
        anns_fit(p, anns),
    ensures
        full_table(p, widened(t, members, anns, n)),
    decreases n,
{
    if n > 0 {
        let f = members[n - 1];
        lemma_widened(p, t, members, anns, (n - 1) as nat);
        lemma_merged_fits(p, f, summary_havoc(), anns.of(f));
        lemma_with_summary(
            p,
            widened(t, members, anns, (n - 1) as nat),
            f,
            summary_merged(summary_havoc(), anns.of(f)),
        );
    }
}

proof fn lemma_settled<C: Checker>(
    p: &Program,
    g: &CallGraph,
    members: Seq<FuncId>,
    cs: Seq<C>,
    m: AnswersV,
    anns: &Annotations,
    recursive: bool,
    widen_after: nat,
    s: ComponentV,
    rounds: nat,
)
    requires
        members_fit(members, p.funcs@.len()),
        full_table(p, s.table),
        all_questions(s.asked),
        anns_fit(p, anns),
        all_ask_well(p, cs),
    ensures
        ({
            let r = settled(p, g, members, cs, m, anns, recursive, widen_after, s, rounds);
            full_table(p, r.table) && all_questions(r.asked)
        }),
    decreases widen_after - rounds,
{
    lemma_round(p, g, members, cs, m, anns, s, members.len());
    let r = round_upto(p, g, members, cs, m, anns, s, members.len());
    if !recursive || !r.changed {
    } else if rounds >= widen_after {
        lemma_widened(p, r.table, members, anns, members.len());
    } else {
        lemma_settled(p, g, members, cs, m, anns, recursive, widen_after, r, rounds + 1);
    }
}

// ---- The schedule ----

/// Whether the summaries of an analysis fit and its questions are well formed.
pub open spec fn run_fits(p: &Program, s: RunV) -> bool {
    full_table(p, s.table) && all_questions(s.asked)
}

proof fn lemma_replayed(p: &Program, s: RunV, members: Seq<FuncId>, e: Seq<MemberEntryV>, n: nat)
    requires
        members_fit(members, p.funcs@.len()),
        run_fits(p, s),
        entry_summaries_fit(p, members, e),
        n <= members.len(),
    ensures
        run_fits(p, replayed(s, members, e, n)),
    decreases n,
{
    if n > 0 {
        lemma_replayed(p, s, members, e, (n - 1) as nat);
        let b = replayed(s, members, e, (n - 1) as nat);
        assert(summary_fits(p, members[n - 1], e[n - 1].summary));
        lemma_with_summary(p, b.table, members[n - 1], e[n - 1].summary);
    }
}

proof fn lemma_component<C: Checker>(p: &Program, inp: InputV<C>, s: RunV, si: int)
    requires
        input_fits(p, inp),
        0 <= si < inp.sccs.schedule@.len(),
        run_fits(p, s),
        anns_fit(p, &inp.anns),
        found_fits(p, inp),
        all_ask_well(p, inp.checkers),
    ensures
        run_fits(p, after_component(p, inp, s, si)),
{
    let members = inp.sccs.schedule@[si]@;
    assert(members_fit(members, p.funcs@.len())) by {
        assert forall|j: int| 0 <= j < members.len() implies (#[trigger] members[j]).0
            < p.funcs@.len() by {
            assert(inp.sccs.schedule@[si]@[j].0 < p.funcs@.len());
        }
    }
    if is_hit(p, inp, si) {
        lemma_replayed(p, s, members, found_at(inp.found, si).unwrap(), members.len());
    } else {
        lemma_started(p, s.table, members, members.len());
        lemma_settled(
            p,
            &inp.graph,
            members,
            inp.checkers,
            inp.infer,
            &inp.anns,
            is_recursive(&inp.graph, members),
            inp.widen_after,
            ComponentV {
                table: started(s.table, members, members.len()),
                asked: s.asked,
                diags: s.diags,
                changed: false,
            },
            0,
        );
    }
}

proof fn lemma_wave<C: Checker>(p: &Program, inp: InputV<C>, wave: Seq<usize>, s: RunV, n: nat)
    requires
        input_fits(p, inp),
        n <= wave.len(),
        forall|i: int|
            0 <= i < wave.len() ==> (#[trigger] wave[i]) < inp.sccs.schedule@.len(),
        run_fits(p, s),
        anns_fit(p, &inp.anns),
        found_fits(p, inp),
        all_ask_well(p, inp.checkers),
    ensures
        run_fits(p, after_wave(p, inp, wave, s, n)),
    decreases n,
{
    if n > 0 {
        let k = (n - 1) as nat;
        lemma_wave(p, inp, wave, s, k);
        lemma_component(p, inp, after_wave(p, inp, wave, s, k), wave[n - 1] as int);
    }
}

proof fn lemma_waves<C: Checker>(
    p: &Program,
    inp: InputV<C>,
    waves: Seq<Seq<usize>>,
    s: RunV,
    n: nat,
)
    requires
        input_fits(p, inp),
        waves == waves_of(&inp.sccs),
        n <= waves.len(),
        run_fits(p, s),
        anns_fit(p, &inp.anns),
        found_fits(p, inp),
        all_ask_well(p, inp.checkers),
    ensures
        run_fits(p, after_waves(p, inp, waves, s, n)),
    decreases n,
{
    if n > 0 {
        let k = (n - 1) as nat;
        let w = waves[n - 1];
        lemma_waves(p, inp, waves, s, k);
        let d = depths_of(&inp.sccs);
        assert(inp.sccs.schedule.len() == inp.sccs.schedule@.len());
        lemma_depths(&inp.sccs, inp.sccs.schedule@.len(), p.funcs@.len());
        crate::engine::lemma_wave(d, k, d.len());
        lemma_wave(p, inp, w, after_waves(p, inp, waves, s, k), w.len());
    }
}

proof fn lemma_start<C>(p: &Program, inp: InputV<C>)
    requires
        anns_fit(p, &inp.anns),
    ensures
        run_fits(p, start_of(p, inp)),
{
    let t = unknown_table(&inp.anns, p.funcs@.len());
    assert forall|f: FuncId|
        clauses_fit(p, f, (#[trigger] t.summary(f)).requires_, t.summary(f).ensures_) by {
        lemma_merged_fits(p, f, summary_havoc(), inp.anns.of(f));
        if f.0 < t.entries.len() {
            assert(FuncId(f.0 as int as u32) == f);
        }
    }
}

// ---- Findings ----

proof fn lemma_checkers_asked<C: Checker>(p: &Program, f: FuncId, t: TableV, cs: Seq<C>, n: nat)
    requires
        table_fits(p, t),
        all_ask_well(p, cs),
        n <= cs.len(),
    ensures
        all_questions(checkers_asked(p, f, t, cs, n)),
    decreases n,
{
    if n > 0 {
        lemma_checkers_asked(p, f, t, cs, (n - 1) as nat);
        assert(asks_well(cs[n - 1], p, f, t));
        lemma_obligation_texts(cs[n - 1].obligations_of(p, f, t));
    }
}

proof fn lemma_contract_at(
    p: &Program,
    f: &Function,
    e: EncodedV,
    pre: Seq<TermV>,
    t: TableV,
    s: Site,
    c: FuncId,
    args: Seq<ValueId>,
    anns: Seq<AnnClause>,
    n: int,
)
    requires
        enc_good(e),
        distinct(e.consts),
        facts(pre, e.consts),
        forall|i: int| 0 <= i < anns.len() ==> (#[trigger] anns[i]).clause@.term.well_sorted(),
        n <= anns.len(),
    ensures
        all_askable(contract_at(p, f, e, pre, t, s, c, args, anns, n)),
    decreases n,
{
    if n > 0 {
        lemma_contract_at(p, f, e, pre, t, s, c, args, anns, n - 1);
        let a = anns[n - 1];
        let av = values_at(e, args);
        assert(good_slots(av, e.consts));
        bound_clause_is_a_fact(a.clause@, av, Seq::empty(), e.consts);
        if let Some(v) = bound_clause(a.clause@, av, Seq::empty()).violation {
            lemma_facts_push(pre, v, e.consts);
            lemma_reach_formed(e, s.0 as int, pre.push(v));
        }
        assert(contract_obligation(p, f, e, pre, t, s, c, args, a) matches Some(o) ==> well_formed(
            o.query,
        ));
    }
}

proof fn lemma_contracts_upto(
    p: &Program,
    f: &Function,
    e: EncodedV,
    pre: Seq<TermV>,
    anns: &Annotations,
    t: TableV,
    k: int,
)
    requires
        enc_good(e),
        distinct(e.consts),
        facts(pre, e.consts),
        anns_fit(p, anns),
    ensures
        all_askable(contracts_upto(p, f, e, pre, anns, t, k)),
    decreases k,
{
    if k > 0 {
        lemma_contracts_upto(p, f, e, pre, anns, t, k - 1);
        let s = f.sites()[k - 1];
        if let Op::Call { callee: Callee::Static(c), args, .. } = f.op_at(s) {
            if let Some(a) = anns.of(c) {
                let r = a.requires_@;
                assert forall|i: int| 0 <= i < r.len() implies (
                #[trigger] r[i]).clause@.term.well_sorted() by {
                    assert(ann_clauses(r)[i].term.well_sorted());
                }
                lemma_contract_at(p, f, e, pre, t, s, c, args@, r, r.len() as int);
            }
        }
    }
}

proof fn lemma_return_queries(
    f: &Function,
    e: EncodedV,
    own: Seq<TermV>,
    a: AnnClause,
    j: int,
)
    requires
        enc_good(e),
        distinct(e.consts),
        facts(own, e.consts),
        a.clause@.term.well_sorted(),
    ensures
        all_formed(return_queries(f, e, own, a, j)),
    decreases j,
{
    if j > 0 {
        lemma_return_queries(f, e, own, a, j - 1);
        let s = ret_sites(f)[j - 1];
        let pv = values_at(e, f.params@);
        let rv = values_at(e, returned(f, s));
        assert(good_slots(pv, e.consts));
        assert(good_slots(rv, e.consts));
        bound_clause_is_a_fact(a.clause@, pv, rv, e.consts);
        if let Some(v) = bound_clause(a.clause@, pv, rv).violation {
            lemma_facts_push(own, v, e.consts);
            lemma_reach_formed(e, s.0 as int, own.push(v));
        }
        assert(return_query(f, e, own, a, s) matches Some(q) ==> well_formed(q));
    }
}

proof fn lemma_clause_queries(
    f: &Function,
    e: EncodedV,
    own: Seq<TermV>,
    anns: Seq<AnnClause>,
    i: int,
)
    requires
        enc_good(e),
        distinct(e.consts),
        facts(own, e.consts),
        forall|i: int| 0 <= i < anns.len() ==> (#[trigger] anns[i]).clause@.term.well_sorted(),
        i <= anns.len(),
    ensures
        all_formed(clause_queries(f, e, own, anns, i)),
    decreases i,
{
    if i > 0 {
        lemma_clause_queries(f, e, own, anns, i - 1);
        lemma_return_queries(f, e, own, anns[i - 1], ret_sites(f).len() as int);
    }
}

proof fn lemma_annotations_asked(p: &Program, f: FuncId, t: TableV, anns: &Annotations)
    requires
        params_named(p),
        table_fits(p, t),
        anns_fit(p, anns),
    ensures
        all_askable(call_contracts(p, f, t, anns)),
        all_formed(guarantees_asked(p, f, t, anns)),
{
    assert(p.body(f) matches Some(b) ==> b.params@.len() <= u32::MAX);
    lemma_table_ensures(p, t);
    lemma_encoding_with_good(p, f, t);
    if let (Some(func), Some(e)) = (p.body(f), usable(p, f, t)) {
        let own = clause_terms(t.summary(f).requires_);
        lemma_own_facts(p, f, &func, t);
        assert(encoding_with(p, f, t) == Ok::<EncodedV, Seq<char>>(e));
        lemma_contracts_upto(p, &func, e, own, anns, t, func.sites().len() as int);
        if let Some(a) = anns.of(f) {
            let g = a.ensures_@;
            assert forall|i: int| 0 <= i < g.len() implies (
            #[trigger] g[i]).clause@.term.well_sorted() by {
                assert(ann_clauses(g)[i].term.well_sorted());
            }
            lemma_clause_queries(&func, e, own, g, g.len() as int);
        }
    }
}

proof fn lemma_report<C: Checker>(
    p: &Program,
    inp: InputV<C>,
    t: TableV,
    replays: Seq<Option<ReplayV>>,
    n: nat,
)
    requires
        params_named(p),
        table_fits(p, t),
        anns_fit(p, &inp.anns),
        all_ask_well(p, inp.checkers),
    ensures
        all_questions(report_upto(p, inp, t, replays, n).asked),
    decreases n,
{
    if n > 0 {
        lemma_report(p, inp, t, replays, (n - 1) as nat);
        let f = FuncId((n - 1) as u32);
        lemma_checkers_asked(p, f, t, inp.checkers, inp.checkers.len());
        lemma_annotations_asked(p, f, t, &inp.anns);
        lemma_obligation_texts(call_contracts(p, f, t, &inp.anns));
        if let Some(a) = inp.anns.of(f) {
            let qs = guarantees_asked(p, f, t, &inp.anns);
            let own = clause_terms(t.summary(f).requires_);
            let vs = verdicts_on(inp.report, qs);
            let skipped = verify_skipped(p, f, usable(p, f, t), own, a.ensures_@, vs);
            lemma_asked_texts(qs, skipped, qs.len());
        }
        assert(all_questions(guarantees_texts(p, f, t, &inp.anns, inp.report)));
        assert(all_questions(findings_asked(p, f, t, inp.checkers, inp.report, &inp.anns)));
    }
}

// ---- The analysis ----

/// With checkers that ask well, and annotations and cached summaries that fit, everything an
/// analysis asks is the text of a well formed query, and the summaries it ends with fit again.
pub proof fn analysis_asks_well<C: Checker>(p: &Program, inp: InputV<C>)
    requires
        input_fits(p, inp),
        params_named(p),
        anns_fit(p, &inp.anns),
        found_fits(p, inp),
        all_ask_well(p, inp.checkers),
    ensures
        all_questions(analysis(p, inp).asked_infer),
        all_questions(analysis(p, inp).asked_findings),
        forall|i: int|
            0 <= i < p.funcs@.len() ==> summary_fits(
                p,
                FuncId(i as u32),
                #[trigger] analysis(p, inp).summaries[i],
            ),
{
    let n = p.funcs@.len();
    let waves = waves_of(&inp.sccs);
    lemma_start(p, inp);
    lemma_waves(p, inp, waves, start_of(p, inp), waves.len());
    let s = after_waves(p, inp, waves, start_of(p, inp), waves.len());
    let t = final_table(s.table, n);
    assert forall|f: FuncId|
        clauses_fit(p, f, (#[trigger] t.summary(f)).requires_, t.summary(f).ensures_) by {
        assert(clauses_fit(p, f, s.table.summary(f).requires_, s.table.summary(f).ensures_));
    }
    lemma_report(p, inp, t, s.replays, n);
    assert forall|i: int| 0 <= i < n implies summary_fits(
        p,
        FuncId(i as u32),
        #[trigger] analysis(p, inp).summaries[i],
    ) by {
        assert(analysis(p, inp).summaries[i] == t.summary(FuncId(i as u32)));
    }
}

/// So it is with the checkers of this library.
pub proof fn builtin_analysis_asks_well(p: &Program, inp: InputV<AnyChecker>)
    requires
        input_fits(p, inp),
        params_named(p),
        anns_fit(p, &inp.anns),
        found_fits(p, inp),
    ensures
        all_questions(analysis(p, inp).asked_infer),
        all_questions(analysis(p, inp).asked_findings),
{
    assert forall|i: int, f: FuncId, t: TableV|
        0 <= i < inp.checkers.len() && table_fits(p, t) implies #[trigger] asks_well(
        inp.checkers[i],
        p,
        f,
        t,
    ) by {
        checkers_ask_well(inp.checkers[i], p, f, t);
    }
    analysis_asks_well(p, inp);
}

} // verus!
