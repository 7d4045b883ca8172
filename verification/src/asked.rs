//! What the checkers ask is well formed, and so is what they infer.

use vstd::prelude::*;
use crate::bounds::{
    bound_or, bounds_at, bounds_candidates, bounds_encoding, bounds_upto, cap_term, convert_at,
    convert_upto, convert_violated, divrem_at, divrem_upto, fault_sites, greatest, index_violated,
    least, len_term, min_at, site_candidate, site_candidates, site_obligation, site_obligations,
    slice_violated, zero_at, BoundsChecker, FaultSiteV,
};
use crate::checker::{accepted, CandidateV, Checker, ObligationV};
use crate::checkers::AnyChecker;
use crate::effects::LocV;
use crate::encode::{encoded_decls, encoding_with, values_at, EncodedV};
use crate::formed::{
    bound_clause_is_a_fact, distinct, enc_good, fact, facts, good, good_slots,
    lemma_declared_letters, lemma_encoding_good, lemma_encoding_with_good, lemma_over_more,
    lemma_reach_formed, lemma_sorted_distinct, lemma_subst_over, names_in, over, sorted_ensures,
    substitution_keeps_sorts, well_formed, Decls,
};
use crate::ir::{Callee, FuncId, Function, Op, Program, Site, TypeId, ValueId};
use crate::leak::{
    all_renamed, buffer_full, callee_conditions, classified, conjoined, dedup, leak_candidates,
    leak_obligation, leak_obligations_upto, pending, prefix_consts, prefix_map, prefixed_query,
    CapClass, LeakChecker,
};
use crate::nil::{
    correlation, deref_candidate, deref_candidates, deref_obligation, deref_obligations, guarantees,
    nil_candidates, nil_encoding, nil_results, nil_return, nil_returns, nonnil_result,
    with_correlations, NilChecker,
};
use crate::query::{sorted_consts, sorted_consts_sorts, QueryV, SatResult};
use crate::rets::{results_of_sig, ret_sites, returned};
use crate::shared::{
    assumed, call_bounds, call_obligation, call_obligations, calls_obligations, clause_terms,
    deref_facts, derefs, propagated, propagated_bounds, propagated_calls, survived, Deref,
};
use crate::summary::{BoundV, ClauseV, TableV};
use crate::term::{mk_is_nil, t_not, Sort, TermV};
use crate::types::{int_repr_of, int_widths};

verus! {

/// Whether every function has few enough parameters for all of them to have names.
pub open spec fn params_named(p: &Program) -> bool {
    forall|f: FuncId| #[trigger] p.body(f) matches Some(b) ==> b.params@.len() <= u32::MAX
}

/// Whether the clauses of a function can stand where they are used: guarantees are well sorted,
/// and so are requirements, which also speak of what the function's encoding declares.
pub open spec fn clauses_fit(p: &Program, f: FuncId, req: Seq<ClauseV>, ens: Seq<ClauseV>) -> bool {
    &&& forall|i: int| 0 <= i < ens.len() ==> (#[trigger] ens[i]).term.well_sorted()
    &&& forall|i: int| 0 <= i < req.len() ==> (#[trigger] req[i]).term.well_sorted()
    &&& p.body(f) matches Some(b) ==> forall|i: int|
        0 <= i < req.len() ==> fact((#[trigger] req[i]).term, encoded_decls(p, &b).consts)
}

/// Whether that holds of all summaries.
pub open spec fn table_fits(p: &Program, t: TableV) -> bool {
    forall|f: FuncId|
        clauses_fit(p, f, (#[trigger] t.summary(f)).requires_, t.summary(f).ensures_)
}

/// Whether all queries are well formed.
pub open spec fn all_formed(s: Seq<QueryV>) -> bool {
    forall|i: int| 0 <= i < s.len() ==> well_formed(#[trigger] s[i])
}

/// Whether all obligations ask well formed queries.
pub open spec fn all_askable(s: Seq<ObligationV>) -> bool {
    forall|i: int| 0 <= i < s.len() ==> well_formed((#[trigger] s[i]).query)
}

/// Whether all candidates ask well formed queries, for clauses that are facts.
pub open spec fn all_candid(s: Seq<CandidateV>, cs: Decls) -> bool {
    forall|i: int|
        0 <= i < s.len() ==> well_formed((#[trigger] s[i]).query) && fact(s[i].clause.term, cs)
}

/// An encoding that can be asked about.
spec fn sound(e: EncodedV) -> bool {
    enc_good(e) && distinct(e.consts)
}

/// Guarantees that fit are well sorted.
pub proof fn lemma_table_ensures(p: &Program, t: TableV)
    requires
        table_fits(p, t),
    ensures
        sorted_ensures(t),
{
    assert forall|f: FuncId, i: int| 0 <= i < t.summary(f).ensures_.len() implies (
    #[trigger] t.summary(f).ensures_[i]).term.well_sorted() by {
        assert(clauses_fit(p, f, t.summary(f).requires_, t.summary(f).ensures_));
    }
}

/// Requirements that fit are facts of the function.
pub proof fn lemma_own_facts(p: &Program, f: FuncId, b: &Function, t: TableV)
    requires
        table_fits(p, t),
        p.body(f) == Some(*b),
    ensures
        facts(clause_terms(t.summary(f).requires_), encoded_decls(p, b).consts),
{
    let req = t.summary(f).requires_;
    assert(clauses_fit(p, f, req, t.summary(f).ensures_));
    assert forall|i: int| 0 <= i < clause_terms(req).len() implies fact(
        #[trigger] clause_terms(req)[i],
        encoded_decls(p, b).consts,
    ) by {
        assert(fact(req[i].term, encoded_decls(p, b).consts));
    }
}

/// Facts with one more fact are facts.
pub proof fn lemma_facts_push(s: Seq<TermV>, t: TermV, cs: Decls)
    requires
        facts(s, cs),
        fact(t, cs),
    ensures
        facts(s.push(t), cs),
{
}

proof fn lemma_nil_fact(e: EncodedV, v: ValueId)
    requires
        enc_good(e),
    ensures
        e.value(v) matches Some(s) ==> (mk_is_nil(s) matches Some(n) ==> fact(n, e.consts) && fact(
            t_not(n),
            e.consts,
        )),
{
    reveal_with_fuel(over, 3);
    reveal_with_fuel(TermV::well_sorted, 3);
}

proof fn lemma_survived_fact(e: EncodedV, d: Deref)
    requires
        enc_good(e),
    ensures
        survived(e, d) matches Some(t) ==> fact(t, e.consts),
{
    lemma_nil_fact(e, d.subject);
    if let Some(s) = e.value(d.subject) {
        if let Some(n) = mk_is_nil(s) {
            if let Some(g) = e.guard(d.block as int) {
                assert(fact(e.guards[d.block as int], e.consts));
                let ng = t_not(g);
                assert(fact(ng, e.consts));
                let v = seq![ng, t_not(n)];
                assert(v[0] == ng && v[1] == t_not(n));
                assert(fact(TermV::Or(v), e.consts));
            }
        }
    }
}

proof fn lemma_deref_facts(e: EncodedV, ds: Seq<Deref>, block: int, instr: int, n: int)
    requires
        enc_good(e),
    ensures
        facts(deref_facts(e, ds, block, instr, n), e.consts),
    decreases n,
{
    if n > 0 {
        lemma_deref_facts(e, ds, block, instr, n - 1);
        lemma_survived_fact(e, ds[n - 1]);
    }
}

// ---- Requirements that travel up ----

proof fn lemma_call_bounds(p: &Program, e: EncodedV, t: TableV, c: FuncId, args: Seq<ValueId>)
    requires
        enc_good(e),
        table_fits(p, t),
    ensures
        forall|i: int|
            0 <= i < call_bounds(e, t, c, args).len() ==> ((#[trigger] call_bounds(
                e,
                t,
                c,
                args,
            )[i]).bound matches Some(x) ==> fact(x, e.consts)) && (call_bounds(
                e,
                t,
                c,
                args,
            )[i].violation matches Some(x) ==> fact(x, e.consts)),
{
    let req = t.summary(c).requires_;
    let av = values_at(e, args);
    assert(clauses_fit(p, c, req, t.summary(c).ensures_));
    assert(good_slots(av, e.consts));
    assert forall|i: int| 0 <= i < req.len() implies ((#[trigger] call_bounds(
        e,
        t,
        c,
        args,
    )[i]).bound matches Some(x) ==> fact(x, e.consts)) && (call_bounds(
        e,
        t,
        c,
        args,
    )[i].violation matches Some(x) ==> fact(x, e.consts)) by {
        bound_clause_is_a_fact(req[i], av, Seq::empty(), e.consts);
    }
}

proof fn lemma_propagated_bounds(
    e: EncodedV,
    tag: Seq<char>,
    known: Seq<TermV>,
    block: int,
    bs: Seq<BoundV>,
    n: int,
)
    requires
        sound(e),
        facts(known, e.consts),
        n <= bs.len(),
        forall|i: int|
            0 <= i < bs.len() ==> ((#[trigger] bs[i]).bound matches Some(x) ==> fact(x, e.consts)) && (
            bs[i].violation matches Some(x) ==> fact(x, e.consts)),
    ensures
        all_candid(propagated_bounds(e, tag, known, block, bs, n), e.consts),
    decreases n,
{
    if n > 0 {
        lemma_propagated_bounds(e, tag, known, block, bs, n - 1);
        let b = bs[n - 1];
        if let Some(v) = b.violation {
            lemma_facts_push(known, v, e.consts);
            lemma_reach_formed(e, block, known.push(v));
        }
        assert(propagated(e, tag, known, block, b) matches Some(c) ==> well_formed(c.query) && fact(
            c.clause.term,
            e.consts,
        ));
    }
}

proof fn lemma_propagated_calls(
    p: &Program,
    f: &Function,
    e: EncodedV,
    tag: Seq<char>,
    t: TableV,
    ds: Seq<Deref>,
    k: int,
)
    requires
        sound(e),
        table_fits(p, t),
    ensures
        all_candid(propagated_calls(f, e, tag, t, ds, k), e.consts),
    decreases k,
{
    if k > 0 {
        lemma_propagated_calls(p, f, e, tag, t, ds, k - 1);
        let s = f.sites()[k - 1];
        if let Op::Call { callee: Callee::Static(c), args, .. } = f.op_at(s) {
            let bs = call_bounds(e, t, c, args@);
            lemma_call_bounds(p, e, t, c, args@);
            lemma_deref_facts(e, ds, s.0 as int, s.1 as int, ds.len() as int);
            lemma_propagated_bounds(
                e,
                tag,
                assumed(e, ds, s.0 as int, s.1 as int),
                s.0 as int,
                bs,
                bs.len() as int,
            );
        }
    }
}

proof fn lemma_call_obligations(
    p: &Program,
    f: &Function,
    e: EncodedV,
    tag: Seq<char>,
    extra: Seq<TermV>,
    s: Site,
    c: FuncId,
    bs: Seq<BoundV>,
    n: int,
)
    requires
        sound(e),
        facts(extra, e.consts),
        n <= bs.len(),
        forall|i: int|
            0 <= i < bs.len() ==> ((#[trigger] bs[i]).violation matches Some(x) ==> fact(x, e.consts)),
    ensures
        all_askable(call_obligations(p, f, e, tag, extra, s, c, bs, n)),
    decreases n,
{
    if n > 0 {
        lemma_call_obligations(p, f, e, tag, extra, s, c, bs, n - 1);
        let b = bs[n - 1];
        if let Some(v) = b.violation {
            lemma_facts_push(extra, v, e.consts);
            lemma_reach_formed(e, s.0 as int, extra.push(v));
        }
        assert(call_obligation(p, f, e, tag, extra, s, c, b) matches Some(o) ==> well_formed(o.query));
    }
}

proof fn lemma_calls_obligations(
    p: &Program,
    f: &Function,
    e: EncodedV,
    tag: Seq<char>,
    pre: Seq<TermV>,
    t: TableV,
    ds: Seq<Deref>,
    k: int,
)
    requires
        sound(e),
        table_fits(p, t),
        facts(pre, e.consts),
    ensures
        all_askable(calls_obligations(p, f, e, tag, pre, t, ds, k)),
    decreases k,
{
    if k > 0 {
        lemma_calls_obligations(p, f, e, tag, pre, t, ds, k - 1);
        let s = f.sites()[k - 1];
        if let Op::Call { callee: Callee::Static(c), args, .. } = f.op_at(s) {
            let bs = call_bounds(e, t, c, args@);
            lemma_call_bounds(p, e, t, c, args@);
            lemma_deref_facts(e, ds, s.0 as int, s.1 as int, ds.len() as int);
            let extra = pre + assumed(e, ds, s.0 as int, s.1 as int);
            lemma_call_obligations(p, f, e, tag, extra, s, c, bs, bs.len() as int);
        }
    }
}

proof fn lemma_accepted(s: Seq<CandidateV>, verdicts: Seq<SatResult>, n: int, cs: Decls)
    requires
        all_candid(s, cs),
        n <= s.len(),
    ensures
        forall|i: int|
            0 <= i < accepted(s, verdicts, n).len() ==> fact(
                (#[trigger] accepted(s, verdicts, n)[i]).term,
                cs,
            ),
    decreases n,
{
    if n > 0 {
        lemma_accepted(s, verdicts, n - 1, cs);
        assert(fact(s[n - 1].clause.term, cs));
    }
}

// ---- Nil ----

proof fn lemma_deref_candidates(e: EncodedV, ds: Seq<Deref>, n: int)
    requires
        sound(e),
    ensures
        all_candid(deref_candidates(e, ds, n), e.consts),
    decreases n,
{
    if n > 0 {
        lemma_deref_candidates(e, ds, n - 1);
        let d = ds[n - 1];
        lemma_nil_fact(e, d.subject);
        lemma_deref_facts(e, ds, d.block as int, d.instr as int, ds.len() as int);
        if let Some(s) = e.value(d.subject) {
            if let Some(x) = mk_is_nil(s) {
                let known = assumed(e, ds, d.block as int, d.instr as int);
                lemma_facts_push(known, x, e.consts);
                lemma_reach_formed(e, d.block as int, known.push(x));
            }
        }
        assert(deref_candidate(e, ds, d) matches Some(c) ==> well_formed(c.query) && fact(
            c.clause.term,
            e.consts,
        ));
    }
}

proof fn lemma_deref_obligations(
    p: &Program,
    f: FuncId,
    func: &Function,
    e: EncodedV,
    t: TableV,
    pre: Seq<TermV>,
    ds: Seq<Deref>,
    n: int,
)
    requires
        sound(e),
        facts(pre, e.consts),
    ensures
        all_askable(deref_obligations(p, f, func, e, t, pre, ds, n)),
    decreases n,
{
    if n > 0 {
        lemma_deref_obligations(p, f, func, e, t, pre, ds, n - 1);
        let d = ds[n - 1];
        lemma_nil_fact(e, d.subject);
        lemma_deref_facts(e, ds, d.block as int, d.instr as int, ds.len() as int);
        if let Some(s) = e.value(d.subject) {
            if let Some(x) = mk_is_nil(s) {
                let known = pre + assumed(e, ds, d.block as int, d.instr as int);
                lemma_facts_push(known, x, e.consts);
                lemma_reach_formed(e, d.block as int, known.push(x));
            }
        }
        assert(deref_obligation(p, f, func, e, t, pre, ds, d) matches Some(o) ==> well_formed(o.query));
    }
}

proof fn lemma_nil_returns(f: &Function, e: EncodedV, i: int, j: int)
    requires
        sound(e),
    ensures
        all_formed(nil_returns(f, e, i, j)),
    decreases j,
{
    if j > 0 {
        lemma_nil_returns(f, e, i, j - 1);
        let s = ret_sites(f)[j - 1];
        let v = returned(f, s)[i];
        lemma_nil_fact(e, v);
        if let Some(x) = e.value(v) {
            if let Some(n) = mk_is_nil(x) {
                assert(facts(seq![n], e.consts));
                lemma_reach_formed(e, s.0 as int, seq![n]);
            }
        }
        assert(nil_return(f, e, s, i) matches Some(q) ==> well_formed(q));
    }
}

proof fn lemma_nil_results(p: &Program, f: &Function, e: EncodedV, rs: Seq<TypeId>, i: int)
    requires
        sound(e),
    ensures
        all_formed(nil_results(p, f, e, rs, i)),
    decreases i,
{
    if i > 0 {
        lemma_nil_results(p, f, e, rs, i - 1);
        lemma_nil_returns(f, e, i - 1, ret_sites(f).len() as int);
    }
}

/// Whether all clauses are well sorted.
spec fn all_sorted(s: Seq<ClauseV>) -> bool {
    forall|i: int| 0 <= i < s.len() ==> (#[trigger] s[i]).term.well_sorted()
}

proof fn lemma_nonnil_sorted(i: u32)
    ensures
        nonnil_result(i).well_sorted(),
        nonnil_result(i).sort() == Sort::Bool,
{
    reveal_with_fuel(TermV::well_sorted, 4);
}

proof fn lemma_correlations_sorted(
    p: &Program,
    f: &Function,
    e: EncodedV,
    rs: Seq<TypeId>,
    verdicts: Seq<SatResult>,
    s: Seq<ClauseV>,
    i: int,
    x: int,
)
    requires
        all_sorted(s),
    ensures
        all_sorted(with_correlations(p, f, e, rs, verdicts, s, i, x)),
    decreases x,
{
    if x > 0 {
        lemma_correlations_sorted(p, f, e, rs, verdicts, s, i, x - 1);
        let a = (x - 1) as u32;
        let b = i as u32;
        lemma_nonnil_sorted(a);
        lemma_nonnil_sorted(b);
        let v = seq![nonnil_result(a), nonnil_result(b)];
        assert(v[0] == nonnil_result(a) && v[1] == nonnil_result(b));
        assert(correlation(a, b).term.well_sorted());
    }
}

proof fn lemma_guarantees_sorted(
    p: &Program,
    f: &Function,
    e: EncodedV,
    rs: Seq<TypeId>,
    verdicts: Seq<SatResult>,
    i: int,
)
    ensures
        all_sorted(guarantees(p, f, e, rs, verdicts, i)),
    decreases i,
{
    if i > 0 {
        lemma_guarantees_sorted(p, f, e, rs, verdicts, i - 1);
        let before = guarantees(p, f, e, rs, verdicts, i - 1);
        lemma_nonnil_sorted((i - 1) as u32);
        lemma_correlations_sorted(p, f, e, rs, verdicts, before, i - 1, rs.len() as int);
    }
}

/// What a checker asks about `f` under the summaries `t` is well formed, and what it infers
/// fits.
pub open spec fn asks_well<C: Checker>(c: C, p: &Program, f: FuncId, t: TableV) -> bool {
    &&& all_formed(c.requires_asked(p, f, t))
    &&& all_formed(c.ensures_asked(p, f, t))
    &&& all_askable(c.obligations_of(p, f, t))
    &&& forall|rv: Seq<SatResult>, ev: Seq<SatResult>|
        clauses_fit(
            p,
            f,
            #[trigger] c.requires_of(p, f, t, rv),
            #[trigger] c.ensures_of(p, f, t, ev),
        )
}

/// The nil checker asks well.
pub proof fn nil_asks_well(p: &Program, f: FuncId, t: TableV)
    requires
        params_named(p),
        table_fits(p, t),
    ensures
        asks_well(NilChecker, p, f, t),
{
    let c = NilChecker;
    assert(p.body(f) matches Some(b) ==> b.params@.len() <= u32::MAX);
    lemma_table_ensures(p, t);
    lemma_encoding_with_good(p, f, t);
    match nil_encoding(p, f, t) {
        Some((func, e)) => {
            let ds = derefs(p, &func);
            let pre = clause_terms(t.summary(f).requires_);
            lemma_own_facts(p, f, &func, t);
            lemma_deref_candidates(e, ds, ds.len() as int);
            lemma_propagated_calls(p, &func, e, "nil-deref"@, t, ds, func.sites().len() as int);
            lemma_deref_obligations(p, f, &func, e, t, pre, ds, ds.len() as int);
            lemma_calls_obligations(
                p,
                &func,
                e,
                "nil-deref"@,
                pre,
                t,
                ds,
                func.sites().len() as int,
            );
            let cands = nil_candidates(p, f, t);
            assert(all_candid(cands, e.consts));
            let rs = results_of_sig(p, &func);
            if let Some(rs) = rs {
                lemma_nil_results(p, &func, e, rs, rs.len() as int);
            }
            assert forall|rv: Seq<SatResult>, ev: Seq<SatResult>|
                clauses_fit(
                    p,
                    f,
                    #[trigger] c.requires_of(p, f, t, rv),
                    #[trigger] c.ensures_of(p, f, t, ev),
                ) by {
                lemma_accepted(cands, rv, cands.len() as int, e.consts);
                if let Some(rs) = rs {
                    lemma_guarantees_sorted(p, &func, e, rs, ev, rs.len() as int);
                }
            }
        },
        None => {
            assert forall|rv: Seq<SatResult>, ev: Seq<SatResult>|
                clauses_fit(
                    p,
                    f,
                    #[trigger] c.requires_of(p, f, t, rv),
                    #[trigger] c.ensures_of(p, f, t, ev),
                ) by {
                lemma_accepted(nil_candidates(p, f, t), rv, 0, Seq::empty());
            }
        },
    }
}

// ---- Bounds ----

proof fn lemma_len_good(p: &Program, f: &Function, e: EncodedV, base: ValueId)
    requires
        enc_good(e),
    ensures
        len_term(p, f, e, base) matches Some(t) ==> good(t, e.consts),
        cap_term(p, f, e, base) matches Some(t) ==> good(t, e.consts),
{
}

proof fn lemma_index_violated(i: TermV, len: TermV, cs: Decls)
    requires
        good(i, cs),
        good(len, cs),
    ensures
        index_violated(i, len) matches Some(t) ==> fact(t, cs),
{
    reveal_with_fuel(over, 3);
    reveal_with_fuel(TermV::well_sorted, 3);
}

proof fn lemma_slice_violated(lo: TermV, hi: TermV, cap: TermV, max: Option<TermV>, cs: Decls)
    requires
        good(lo, cs),
        good(hi, cs),
        good(cap, cs),
        max matches Some(m) ==> good(m, cs),
    ensures
        slice_violated(lo, hi, cap, max) matches Some(t) ==> fact(t, cs),
{
    reveal_with_fuel(over, 3);
    reveal_with_fuel(TermV::well_sorted, 3);
}

proof fn lemma_bounds_at(p: &Program, f: &Function, e: EncodedV, s: Site)
    requires
        enc_good(e),
    ensures
        bounds_at(p, f, e, s) matches Some(x) ==> fact(x.violation, e.consts),
{
    match f.op_at(s) {
        Op::IndexAddr { base, index, .. } => {
            lemma_len_good(p, f, e, base);
            if let (Some(i), Some(len)) = (e.value(index), len_term(p, f, e, base)) {
                lemma_index_violated(i, len, e.consts);
            }
        },
        Op::Index { base, index, .. } => {
            lemma_len_good(p, f, e, base);
            if let (Some(i), Some(len)) = (e.value(index), len_term(p, f, e, base)) {
                lemma_index_violated(i, len, e.consts);
            }
        },
        Op::Slice { base, low, high, max, .. } => {
            lemma_len_good(p, f, e, base);
            let zero = TermV::BvLit(64, 0);
            assert(good(zero, e.consts));
            if let (Some(cap), Some(lo), Some(hi)) = (
                cap_term(p, f, e, base),
                bound_or(e, low, Some(zero)),
                bound_or(e, high, len_term(p, f, e, base)),
            ) {
                lemma_slice_violated(lo, hi, cap, bound_or(e, max, None), e.consts);
            }
        },
        _ => {},
    }
}

/// Whether all violations are facts.
spec fn all_facts(xs: Seq<FaultSiteV>, cs: Decls) -> bool {
    forall|i: int| 0 <= i < xs.len() ==> fact((#[trigger] xs[i]).violation, cs)
}

proof fn lemma_bounds_upto(p: &Program, f: &Function, e: EncodedV, k: int)
    requires
        enc_good(e),
    ensures
        all_facts(bounds_upto(p, f, e, k), e.consts),
    decreases k,
{
    if k > 0 {
        lemma_bounds_upto(p, f, e, k - 1);
        lemma_bounds_at(p, f, e, f.sites()[k - 1]);
    }
}

proof fn lemma_divrem_at(p: &Program, f: &Function, e: EncodedV, s: Site)
    requires
        enc_good(e),
    ensures
        all_facts(divrem_at(p, f, e, s), e.consts),
{
    reveal_with_fuel(over, 3);
    reveal_with_fuel(TermV::well_sorted, 3);
    if let Op::BinOp { kind, lhs, rhs, .. } = f.op_at(s) {
        int_widths(&p.types, f.type_of(lhs));
        if let (Some((w, signed)), Some(l), Some(r)) = (
            int_repr_of(&p.types, f.type_of(lhs)),
            e.value(lhs),
            e.value(rhs),
        ) {
            assert(zero_at(e, s, w, rhs, r) matches Some(x) ==> fact(x.violation, e.consts));
            assert(min_at(s, w, lhs, rhs, l, r) matches Some(x) ==> fact(x.violation, e.consts));
        }
    }
}

proof fn lemma_divrem_upto(p: &Program, f: &Function, e: EncodedV, k: int)
    requires
        enc_good(e),
    ensures
        all_facts(divrem_upto(p, f, e, k), e.consts),
    decreases k,
{
    if k > 0 {
        lemma_divrem_upto(p, f, e, k - 1);
        lemma_divrem_at(p, f, e, f.sites()[k - 1]);
    }
}

proof fn lemma_convert_violated(ws: u32, ss: bool, wd: u32, sd: bool, x: TermV, cs: Decls)
    requires
        good(x, cs),
        ws == 8 || ws == 16 || ws == 32 || ws == 64,
        wd == 8 || wd == 16 || wd == 32 || wd == 64,
        wd <= ws,
    ensures
        convert_violated(ws, ss, wd, sd, x) matches Some(t) ==> fact(t, cs),
{
    reveal_with_fuel(over, 3);
    reveal_with_fuel(TermV::well_sorted, 3);
    assert(good(greatest(ws, wd, sd), cs));
    assert(good(least(ws, wd, sd), cs));
}

proof fn lemma_convert_at(p: &Program, f: &Function, e: EncodedV, s: Site)
    requires
        enc_good(e),
    ensures
        convert_at(p, f, e, s) matches Some(x) ==> fact(x.violation, e.consts),
{
    if let Op::Convert { dst, src } = f.op_at(s) {
        int_widths(&p.types, f.type_of(src));
        int_widths(&p.types, f.type_of(dst));
        if let (Some((ws, ss)), Some((wd, sd)), Some(x)) = (
            int_repr_of(&p.types, f.type_of(src)),
            int_repr_of(&p.types, f.type_of(dst)),
            e.value(src),
        ) {
            if wd <= ws {
                lemma_convert_violated(ws, ss, wd, sd, x, e.consts);
            }
        }
    }
}

proof fn lemma_convert_upto(p: &Program, f: &Function, e: EncodedV, k: int)
    requires
        enc_good(e),
    ensures
        all_facts(convert_upto(p, f, e, k), e.consts),
    decreases k,
{
    if k > 0 {
        lemma_convert_upto(p, f, e, k - 1);
        lemma_convert_at(p, f, e, f.sites()[k - 1]);
    }
}

proof fn lemma_site_candidates(e: EncodedV, xs: Seq<FaultSiteV>, n: int)
    requires
        sound(e),
        all_facts(xs, e.consts),
        n <= xs.len(),
    ensures
        all_candid(site_candidates(e, xs, n), e.consts),
    decreases n,
{
    if n > 0 {
        lemma_site_candidates(e, xs, n - 1);
        let x = xs[n - 1];
        assert(fact(x.violation, e.consts));
        assert(facts(seq![x.violation], e.consts));
        lemma_reach_formed(e, x.site.0 as int, seq![x.violation]);
        assert(site_candidate(e, x) matches Some(c) ==> well_formed(c.query) && fact(
            c.clause.term,
            e.consts,
        ));
    }
}

proof fn lemma_site_obligations(
    p: &Program,
    f: FuncId,
    func: &Function,
    e: EncodedV,
    pre: Seq<TermV>,
    xs: Seq<FaultSiteV>,
    n: int,
)
    requires
        sound(e),
        all_facts(xs, e.consts),
        facts(pre, e.consts),
        n <= xs.len(),
    ensures
        all_askable(site_obligations(p, f, func, e, pre, xs, n)),
    decreases n,
{
    if n > 0 {
        lemma_site_obligations(p, f, func, e, pre, xs, n - 1);
        let x = xs[n - 1];
        assert(fact(x.violation, e.consts));
        lemma_facts_push(pre, x.violation, e.consts);
        lemma_reach_formed(e, x.site.0 as int, pre.push(x.violation));
        assert(site_obligation(p, f, func, e, pre, x) matches Some(o) ==> well_formed(o.query));
    }
}

/// The bounds checker asks well.
pub proof fn bounds_asks_well(p: &Program, f: FuncId, t: TableV)
    requires
        params_named(p),
        table_fits(p, t),
    ensures
        asks_well(BoundsChecker, p, f, t),
{
    let c = BoundsChecker;
    assert(p.body(f) matches Some(b) ==> b.params@.len() <= u32::MAX);
    lemma_encoding_good(p, f);
    match bounds_encoding(p, f) {
        Some((func, e)) => {
            let n = func.sites().len() as int;
            let none = Seq::<Deref>::empty();
            let xs = fault_sites(p, &func, e);
            let pre = clause_terms(t.summary(f).requires_);
            lemma_own_facts(p, f, &func, t);
            lemma_bounds_upto(p, &func, e, n);
            lemma_divrem_upto(p, &func, e, n);
            lemma_convert_upto(p, &func, e, n);
            assert(all_facts(xs, e.consts));
            lemma_site_candidates(e, xs, xs.len() as int);
            lemma_propagated_calls(p, &func, e, "bounds"@, t, none, n);
            lemma_propagated_calls(p, &func, e, "div-zero"@, t, none, n);
            lemma_propagated_calls(p, &func, e, "overflow"@, t, none, n);
            lemma_site_obligations(p, f, &func, e, pre, xs, xs.len() as int);
            lemma_calls_obligations(p, &func, e, "bounds"@, pre, t, none, n);
            lemma_calls_obligations(p, &func, e, "div-zero"@, pre, t, none, n);
            lemma_calls_obligations(p, &func, e, "overflow"@, pre, t, none, n);
            let cands = bounds_candidates(p, f, t);
            assert(all_candid(cands, e.consts));
            assert forall|rv: Seq<SatResult>, ev: Seq<SatResult>|
                clauses_fit(
                    p,
                    f,
                    #[trigger] c.requires_of(p, f, t, rv),
                    #[trigger] c.ensures_of(p, f, t, ev),
                ) by {
                lemma_accepted(cands, rv, cands.len() as int, e.consts);
            }
        },
        None => {
            assert forall|rv: Seq<SatResult>, ev: Seq<SatResult>|
                clauses_fit(
                    p,
                    f,
                    #[trigger] c.requires_of(p, f, t, rv),
                    #[trigger] c.ensures_of(p, f, t, ev),
                ) by {
                lemma_accepted(bounds_candidates(p, f, t), rv, 0, Seq::empty());
            }
        },
    }
}

// ---- Leaks ----

proof fn lemma_over_names(t: TermV, cs: Decls, d: Set<Seq<char>>)
    requires
        over(t, cs),
        forall|i: int| 0 <= i < cs.len() ==> d.contains((#[trigger] cs[i]).0),
    ensures
        names_in(t, d),
    decreases t,
{
    match t {
        TermV::Var(n, s) => {
            let i = choose|i: int| 0 <= i < cs.len() && cs[i] == (n, s);
            assert(d.contains(cs[i].0));
        },
        TermV::BoolLit(_) | TermV::PtrNil | TermV::BvLit(_, _) => {},
        TermV::Eq(x, y) | TermV::BvBin(_, x, y) | TermV::BvCmp(_, x, y) | TermV::SeqVal(x, y) => {
            lemma_over_names(*x, cs, d);
            lemma_over_names(*y, cs, d);
        },
        TermV::Not(x) | TermV::PtrIsNil(x) | TermV::SeqLen(x) | TermV::SeqCap(x) => {
            lemma_over_names(*x, cs, d);
        },
        TermV::And(v) | TermV::Or(v) => {
            assert forall|i: int| 0 <= i < v.len() implies names_in(#[trigger] v[i], d) by {
                lemma_over_names(v[i], cs, d);
            }
        },
        TermV::Ite(c, x, y) => {
            lemma_over_names(*c, cs, d);
            lemma_over_names(*x, cs, d);
            lemma_over_names(*y, cs, d);
        },
    }
}

proof fn lemma_prefix_map(cs: Decls, prefix: Seq<char>, n: int)
    requires
        distinct(cs),
        0 <= n <= cs.len(),
    ensures
        forall|i: int|
            0 <= i < n ==> prefix_map(cs, prefix, n).contains_key((#[trigger] cs[i]).0)
                && prefix_map(cs, prefix, n)[cs[i].0] == TermV::Var(prefix + cs[i].0, cs[i].1),
        forall|x: Seq<char>| #[trigger]
            prefix_map(cs, prefix, n).contains_key(x) ==> exists|i: int|
                0 <= i < n && (#[trigger] cs[i]).0 == x,
    decreases n,
{
    if n > 0 {
        lemma_prefix_map(cs, prefix, n - 1);
        assert forall|i: int| 0 <= i < n implies prefix_map(cs, prefix, n).contains_key(
            (#[trigger] cs[i]).0,
        ) && prefix_map(cs, prefix, n)[cs[i].0] == TermV::Var(prefix + cs[i].0, cs[i].1) by {
            if i < n - 1 {
                assert(cs[i].0 != cs[n - 1].0);
            }
        }
        assert forall|x: Seq<char>| #[trigger] prefix_map(cs, prefix, n).contains_key(x) implies exists|
            i: int,
        | 0 <= i < n && (#[trigger] cs[i]).0 == x by {
            if x == cs[n - 1].0 {
                assert(cs[n - 1].0 == x);
            } else {
                assert(prefix_map(cs, prefix, n - 1).contains_key(x));
            }
        }
    }
}

proof fn lemma_prefix_fits(t: TermV, cs: Decls, m: Map<Seq<char>, TermV>)
    requires
        over(t, cs),
        forall|i: int|
            0 <= i < cs.len() ==> m.contains_key((#[trigger] cs[i]).0) && m[cs[i].0].sort() == cs[i].1,
    ensures
        t.subst_fits(m),
    decreases t,
{
    match t {
        TermV::Var(n, s) => {
            let i = choose|i: int| 0 <= i < cs.len() && cs[i] == (n, s);
            assert(m[cs[i].0].sort() == s);
        },
        TermV::BoolLit(_) | TermV::PtrNil | TermV::BvLit(_, _) => {},
        TermV::Eq(x, y) | TermV::BvBin(_, x, y) | TermV::BvCmp(_, x, y) | TermV::SeqVal(x, y) => {
            lemma_prefix_fits(*x, cs, m);
            lemma_prefix_fits(*y, cs, m);
        },
        TermV::Not(x) | TermV::PtrIsNil(x) | TermV::SeqLen(x) | TermV::SeqCap(x) => {
            lemma_prefix_fits(*x, cs, m);
        },
        TermV::And(v) | TermV::Or(v) => {
            assert forall|i: int| 0 <= i < v.len() implies (#[trigger] v[i]).subst_fits(m) by {
                lemma_prefix_fits(v[i], cs, m);
            }
        },
        TermV::Ite(c, x, y) => {
            lemma_prefix_fits(*c, cs, m);
            lemma_prefix_fits(*x, cs, m);
            lemma_prefix_fits(*y, cs, m);
        },
    }
}

/// Renaming by a prefix never fails on a well formed query, and the result is well formed.
pub proof fn renaming_never_fails(q: QueryV, prefix: Seq<char>)
    requires
        well_formed(q),
    ensures
        prefixed_query(q, prefix) matches Some(r) && well_formed(r),
{
    let n = q.consts.len() as int;
    let m = prefix_map(q.consts, prefix, n);
    let cs = prefix_consts(q.consts, prefix);
    lemma_prefix_map(q.consts, prefix, n);
    assert forall|i: int, j: int| 0 <= i < j < cs.len() implies (#[trigger] cs[i]).0 != (
    #[trigger] cs[j]).0 by {
        assert(q.consts[i].0 != q.consts[j].0);
        if cs[i].0 == cs[j].0 {
            assert(cs[i].0.skip(prefix.len() as int) =~= q.consts[i].0);
            assert(cs[j].0.skip(prefix.len() as int) =~= q.consts[j].0);
        }
    }
    assert forall|x: Seq<char>| m.contains_key(x) implies good(#[trigger] m[x], cs) by {
        let i = choose|i: int| 0 <= i < n && (#[trigger] q.consts[i]).0 == x;
        assert(m[q.consts[i].0] == TermV::Var(prefix + q.consts[i].0, q.consts[i].1));
        assert(cs[i] == (prefix + q.consts[i].0, q.consts[i].1));
    }
    assert forall|i: int| 0 <= i < q.asserts.len() implies (#[trigger] q.asserts[i]).subst_fits(m)
        && fact(q.asserts[i].subst(m), cs) by {
        let t = q.asserts[i];
        assert(fact(t, q.consts));
        lemma_prefix_fits(t, q.consts, m);
        lemma_over_names(t, q.consts, m.dom());
        substitution_keeps_sorts(t, m);
        lemma_subst_over(t, m, cs);
    }
    let ts = all_renamed(q.asserts, m);
    assert forall|i: int| 0 <= i < ts.len() implies fact(#[trigger] ts[i], cs) by {
        assert(ts[i] == q.asserts[i].subst(m));
    }
}

proof fn lemma_dedup_distinct(s: Decls)
    requires
        distinct(s),
    ensures
        dedup(s) == s,
    decreases s.len(),
{
    if s.len() > 1 {
        let front = s.drop_last();
        assert forall|i: int, j: int| 0 <= i < j < front.len() implies (#[trigger] front[i]).0 != (
        #[trigger] front[j]).0 by {
            assert(s[i].0 != s[j].0);
        }
        lemma_dedup_distinct(front);
        assert(s[s.len() - 2].0 != s[s.len() - 1].0);
        assert(front.push(s.last()) =~= s);
    }
}

/// Two well formed queries without a common name are well formed together.
pub proof fn conjoining_keeps_form(a: QueryV, b: QueryV)
    requires
        well_formed(a),
        well_formed(b),
        forall|i: int, j: int|
            0 <= i < a.consts.len() && 0 <= j < b.consts.len() ==> (#[trigger] a.consts[i]).0 != (
            #[trigger] b.consts[j]).0,
    ensures
        well_formed(conjoined(a, b)),
{
    let all = a.consts + b.consts;
    let cs = sorted_consts(all);
    assert forall|i: int, j: int| 0 <= i < j < all.len() implies (#[trigger] all[i]).0 != (
    #[trigger] all[j]).0 by {
        let n = a.consts.len() as int;
        if j < n {
            assert(a.consts[i].0 != a.consts[j].0);
        } else if i >= n {
            assert(b.consts[i - n].0 != b.consts[j - n].0);
        } else {
            assert(a.consts[i].0 != b.consts[j - n].0);
        }
    }
    lemma_sorted_distinct(all);
    sorted_consts_sorts(all);
    lemma_dedup_distinct(cs);
    let q = conjoined(a, b);
    assert forall|i: int| 0 <= i < q.asserts.len() implies fact(#[trigger] q.asserts[i], cs) by {
        let n = a.asserts.len() as int;
        if i < n {
            assert(fact(a.asserts[i], a.consts));
            assert forall|c: (Seq<char>, Sort)| a.consts.contains(c) implies #[trigger] cs.contains(c) by {
                let k = choose|k: int| 0 <= k < a.consts.len() && a.consts[k] == c;
                assert(all[k] == c);
                assert(all.contains(c));
            }
            lemma_over_more(a.asserts[i], a.consts, cs);
        } else {
            assert(fact(b.asserts[i - n], b.consts));
            assert forall|c: (Seq<char>, Sort)| b.consts.contains(c) implies #[trigger] cs.contains(c) by {
                let k = choose|k: int| 0 <= k < b.consts.len() && b.consts[k] == c;
                assert(all[a.consts.len() + k] == c);
                assert(all.contains(c));
            }
            lemma_over_more(b.asserts[i - n], b.consts, cs);
        }
    }
}

proof fn lemma_pending_good(
    f: &Function,
    e: EncodedV,
    l: LocV,
    block: int,
    instr: int,
    b: int,
)
    requires
        enc_good(e),
    ensures
        pending(f, e, l, block, instr, b) matches Some((t, n)) ==> good(t, e.consts),
    decreases b,
{
    reveal_with_fuel(over, 3);
    reveal_with_fuel(TermV::well_sorted, 3);
    if b > 0 {
        lemma_pending_good(f, e, l, block, instr, b - 1);
        if 0 <= b - 1 < e.guards.len() {
            assert(fact(e.guards[b - 1], e.consts));
        }
    }
}

proof fn lemma_buffer_full(
    f: &Function,
    e: EncodedV,
    l: LocV,
    block: int,
    instr: int,
    cap: u64,
)
    requires
        enc_good(e),
    ensures
        buffer_full(f, e, l, block, instr, cap) matches Some(t) ==> fact(t, e.consts),
{
    reveal_with_fuel(over, 3);
    reveal_with_fuel(TermV::well_sorted, 3);
    lemma_pending_good(f, e, l, block, instr, e.dag.len() as int);
}

proof fn lemma_leak_obligation(
    p: &Program,
    f: FuncId,
    func: &Function,
    e: EncodedV,
    t: TableV,
    c: crate::leak::CandidateV,
)
    requires
        params_named(p),
        table_fits(p, t),
        p.body(f) == Some(*func),
        encoding_with(p, f, t) == Ok::<EncodedV, Seq<char>>(e),
    ensures
        leak_obligation(p, f, func, e, t, c) matches Some(o) ==> well_formed(o.query),
{
    let class = classified(p, func, c);
    lemma_table_ensures(p, t);
    assert(p.body(f) matches Some(b) ==> b.params@.len() <= u32::MAX);
    assert(p.body(c.callee) matches Some(b) ==> b.params@.len() <= u32::MAX);
    lemma_encoding_with_good(p, f, t);
    lemma_encoding_with_good(p, c.callee, t);
    lemma_own_facts(p, f, func, t);
    let pre = clause_terms(t.summary(f).requires_);
    let fq = e.reach(c.go_block as int, pre);
    lemma_reach_formed(e, c.go_block as int, pre);
    if let (Some(g), Ok(ge)) = (p.body(c.callee), encoding_with(p, c.callee, t)) {
        lemma_own_facts(p, c.callee, &g, t);
        if let CapClass::BufferedConst(cap) = class {
            lemma_buffer_full(&g, ge, c.callee_loc, c.op_block as int, c.op_instr as int, cap);
        }
        if let Some(extra) = callee_conditions(t, &g, ge, c, class) {
            assert(facts(extra, ge.consts));
            lemma_reach_formed(ge, c.op_block as int, extra);
            let gq = ge.reach(c.op_block as int, extra);
            renaming_never_fails(gq, "s_"@);
            let cq = prefixed_query(gq, "s_"@).unwrap();
            assert forall|i: int, j: int|
                0 <= i < fq.consts.len() && 0 <= j < cq.consts.len() implies (
            #[trigger] fq.consts[i]).0 != (#[trigger] cq.consts[j]).0 by {
                reveal_strlit("s_");
                assert(cq.consts[j].0 == "s_"@ + gq.consts[j].0);
                assert(cq.consts[j].0[0] == 's');
                sorted_consts_sorts(e.consts);
                assert(fq.consts.contains(fq.consts[i]));
                assert(e.consts.contains(fq.consts[i]));
                let k = choose|k: int| 0 <= k < e.consts.len() && e.consts[k] == fq.consts[i];
                lemma_declared_letters(p, func, k);
            }
            conjoining_keeps_form(fq, cq);
        }
    }
}

proof fn lemma_leak_upto(
    p: &Program,
    f: FuncId,
    func: &Function,
    e: EncodedV,
    t: TableV,
    cs: Seq<crate::leak::CandidateV>,
    n: int,
)
    requires
        params_named(p),
        table_fits(p, t),
        p.body(f) == Some(*func),
        encoding_with(p, f, t) == Ok::<EncodedV, Seq<char>>(e),
    ensures
        all_askable(leak_obligations_upto(p, f, func, e, t, cs, n)),
    decreases n,
{
    if n > 0 {
        lemma_leak_upto(p, f, func, e, t, cs, n - 1);
        lemma_leak_obligation(p, f, func, e, t, cs[n - 1]);
    }
}

/// The leak checker asks well.
pub proof fn leak_asks_well(p: &Program, f: FuncId, t: TableV)
    requires
        params_named(p),
        table_fits(p, t),
    ensures
        asks_well(LeakChecker, p, f, t),
{
    if let (Some(func), Ok(e)) = (p.body(f), encoding_with(p, f, t)) {
        let cs = leak_candidates(p, &func);
        lemma_leak_upto(p, f, &func, e, t, cs, cs.len() as int);
    }
}

/// Whatever checker is run on fitting summaries, every query that it asks is well formed, and
/// every clause that it infers fits.
pub proof fn checkers_ask_well(c: AnyChecker, p: &Program, f: FuncId, t: TableV)
    requires
        params_named(p),
        table_fits(p, t),
    ensures
        asks_well(c, p, f, t),
{
    nil_asks_well(p, f, t);
    bounds_asks_well(p, f, t);
    leak_asks_well(p, f, t);
    match c {
        AnyChecker::Nil(x) => {
            assert(x == NilChecker);
        },
        AnyChecker::Bounds(x) => {
            assert(x == BoundsChecker);
        },
        AnyChecker::Leak(x) => {
            assert(x == LeakChecker);
        },
    }
}

} // verus!
