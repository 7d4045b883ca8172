//! Checkers as a whole: what each infers and asks is made of its parts, and nothing that a
//! checker infers is lost.

use vstd::prelude::*;
use crate::annotations::{AnnClause, Annotations};
use crate::answers::{answer, verdicts_on};
use crate::asking::{
    asks_of_call, at_call, calls_at, every_requirement_is_asked_about,
    guarantees_are_asked_about_at_returns, hands_up, requirements_travel_up,
};
use crate::blocking::lemma_in_both;
use crate::bounds::{
    bounds_candidates, bounds_encoding, bounds_obligations, fault_sites, site_candidates,
    site_obligations,
};
use crate::calls::calls_keep_their_guarantees;
use crate::checker::{
    accepted, pushed, verdict_at, CandidateV, Checker, Finding, FindingV, ObligationV,
};
use crate::contracts::{clause_queries, holds_at, proven, return_queries, return_query, CONTRACT};
use crate::effects::collected;
use crate::encode::{
    encoded, encoding, encoding_with, lemma_encoded_dag, values_at, with_ensures, EncodedV,
};
use crate::executions::{constants_fit, modelled_values_are_those_of_the_function};
use crate::findings::{
    call_contracts, checkers_upto, checking_failed, function_findings, guarantees_reported,
    raised_upto, unsorted_findings,
};
use crate::fixpoint::{analysis_fails, ensures_upto, function_summary, requires_upto, AnswersV};
use crate::ir::{CallGraph, FuncId, Function, Program, TypeId, TypeKind, TypeTable, ValueId};
use crate::naming::lemma_apart;
use crate::nil::{
    const_nil, correlated, correlation, deref_candidates, deref_obligations, guarantees, never_nil,
    nil_candidates, nil_encoding, nil_ensures, nil_obligations, nonnil_clause, with_correlations,
};
use crate::nilness::{proper, the_case};
use crate::promises::{answers_right, comes_to, is_error_type, written_nil};
use crate::query::SatResult;
use crate::ranges::typed;
use crate::reading::{reports, satisfiable_obligations_are_reported};
use crate::rets::{has_returns, results_of_sig, ret_sites, returned};
use crate::shared::{calls_obligations, clause_terms, derefs, over_params, propagated_calls, Deref};
use crate::sort::sorting_sorts;
use crate::summary::{bound_clause, iface_name, ClauseV, IfaceVar, Provenance, TableV};
use crate::term::{Sort, TermV};
use crate::types::{array_len_of, basic_int, sort_of_type};
use crate::values::{all_hold, holds, or_is_some, value, Env, Value};

verus! {

// ---- Types ----

/// What values of a type are modelled as, by what the type is behind its names: integers as
/// bitvectors of their width, truth values as such, strings and slices by their lengths,
/// pointers as pointers, and nothing else at all.
pub proof fn types_are_modelled_by_what_they_are(types: &TypeTable, t: TypeId, w: u32)
    ensures
        sort_of_type(types, t) == Some(Sort::BitVec(w)) <==> (types.base_kind(t) matches TypeKind::Basic {
            name,
        } && exists|s: bool| basic_int(name@) == Some((w, s))),
        sort_of_type(types, t) == Some(Sort::Bool) <==> (types.base_kind(t) matches TypeKind::Basic {
            name,
        } && name@ == "bool"@),
        sort_of_type(types, t) == Some(Sort::GoSeq) <==> (types.base_kind(t) is Slice || (
        types.base_kind(t) matches TypeKind::Basic { name } && name@ == "string"@)),
        sort_of_type(types, t) == Some(Sort::Ptr) <==> types.base_kind(t) is Pointer,
        array_len_of(types, t) is Some <==> (types.base_kind(t) is Array || (types.base_kind(
            t,
        ) matches TypeKind::Pointer { elem } && types.base_kind(elem) is Array)),
        types.base_kind(t) matches TypeKind::Array { len, .. } ==> array_len_of(types, t) == Some(
            len,
        ),
{
    if let TypeKind::Basic { name } = types.base_kind(t) {
        lemma_apart();
        reveal_strlit("bool");
        reveal_strlit("string");
        assert("bool"@[0] == 'b' && "bool"@[1] == 'o' && "bool"@.len() == 4);
        assert("byte"@[1] == 'y') by {
            reveal_strlit("byte");
        }
        assert("string"@[0] == 's');
        if let Some((u, s)) = basic_int(name@) {
            assert(basic_int(name@) == Some((u, s)));
        }
    }
}

/// A name for a type is the type itself: it is behind its names what the named type is, as long
/// as the chain of names ends.
pub proof fn names_of_types_are_seen_through(types: &TypeTable, t: TypeId, u: TypeId, n: nat)
    requires
        types.kind_of(t) matches TypeKind::Named { underlying, .. } && underlying == u,
        n > 0,
    ensures
        types.peel(t, n) == types.peel(u, (n - 1) as nat),
        !(types.kind_of(u) is Named) ==> types.peel(t, n) == u,
{
    reveal_with_fuel(TypeTable::peel, 2);
}

// ---- Requirements ----

proof fn lemma_pushed_has(cs: Seq<ClauseV>, c: ClauseV, d: ClauseV)
    ensures
        pushed(cs, c).contains(c),
        cs.contains(d) ==> pushed(cs, c).contains(d),
{
    if !cs.contains(c) {
        assert(pushed(cs, c)[cs.len() as int] == c);
    }
    if cs.contains(d) {
        let i = choose|i: int| 0 <= i < cs.len() && cs[i] == d;
        assert(pushed(cs, c)[i] == d);
    }
}

/// Every candidate whose query is answered as satisfiable becomes a requirement.
pub proof fn satisfiable_candidates_are_accepted(
    s: Seq<CandidateV>,
    verdicts: Seq<SatResult>,
    n: int,
    i: int,
)
    requires
        0 <= i < n <= s.len(),
        verdict_at(verdicts, i) == SatResult::Sat,
    ensures
        accepted(s, verdicts, n).contains(s[i].clause),
    decreases n,
{
    let before = accepted(s, verdicts, n - 1);
    lemma_pushed_has(before, s[n - 1].clause, s[i].clause);
    if i < n - 1 {
        satisfiable_candidates_are_accepted(s, verdicts, n - 1, i);
    }
}

/// What the nil checker proposes to require holds all that its callees' requirements hand up.
pub proof fn nil_requirements_travel_up(
    p: &Program,
    f: FuncId,
    t: TableV,
    func: &Function,
    e: EncodedV,
    k: int,
    i: int,
    c: FuncId,
    args: Seq<ValueId>,
)
    requires
        nil_encoding(p, f, t) == Some((*func, e)),
        proper(e),
        calls_at(func, k, c, args),
        0 <= i < t.summary(c).requires_.len(),
        t.summary(c).requires_[i].tag == "nil-deref"@,
        at_call(e, t.summary(c).requires_[i], args) matches Some(b) && over_params(b),
    ensures
        exists|cand: CandidateV| #[trigger]
            nil_candidates(p, f, t).contains(cand) && hands_up(
                func,
                e,
                "nil-deref"@,
                t,
                derefs(p, func),
                k,
                i,
                c,
                args,
                cand,
            ),
{
    let ds = derefs(p, func);
    requirements_travel_up(func, e, "nil-deref"@, t, ds, k, i, c, args);
    let up = propagated_calls(func, e, "nil-deref"@, t, ds, func.sites().len() as int);
    let cand = choose|cand: CandidateV| #[trigger]
        up.contains(cand) && hands_up(func, e, "nil-deref"@, t, ds, k, i, c, args, cand);
    lemma_in_both(
        deref_candidates(e, ds, ds.len() as int),
        up,
        cand,
    );
    assert(nil_candidates(p, f, t).contains(cand));
}

/// Whether `tag` is one of the bounds checker's.
pub open spec fn is_bounds_tag(tag: Seq<char>) -> bool {
    tag == "bounds"@ || tag == "div-zero"@ || tag == "overflow"@
}

/// What the bounds checker proposes to require holds all that its callees' requirements hand
/// up, for each of its tags.
pub proof fn bounds_requirements_travel_up(
    p: &Program,
    f: FuncId,
    t: TableV,
    func: &Function,
    e: EncodedV,
    tag: Seq<char>,
    k: int,
    i: int,
    c: FuncId,
    args: Seq<ValueId>,
)
    requires
        bounds_encoding(p, f) == Some((*func, e)),
        proper(e),
        is_bounds_tag(tag),
        calls_at(func, k, c, args),
        0 <= i < t.summary(c).requires_.len(),
        t.summary(c).requires_[i].tag == tag,
        at_call(e, t.summary(c).requires_[i], args) matches Some(b) && over_params(b),
    ensures
        exists|cand: CandidateV| #[trigger]
            bounds_candidates(p, f, t).contains(cand) && hands_up(
                func,
                e,
                tag,
                t,
                Seq::empty(),
                k,
                i,
                c,
                args,
                cand,
            ),
{
    let ds = Seq::<Deref>::empty();
    requirements_travel_up(func, e, tag, t, ds, k, i, c, args);
    let n = func.sites().len() as int;
    let up = propagated_calls(func, e, tag, t, ds, n);
    let cand = choose|cand: CandidateV| #[trigger]
        up.contains(cand) && hands_up(func, e, tag, t, ds, k, i, c, args, cand);
    let xs = fault_sites(p, func, e);
    let a = site_candidates(e, xs, xs.len() as int);
    let b = propagated_calls(func, e, "bounds"@, t, ds, n);
    let d = propagated_calls(func, e, "div-zero"@, t, ds, n);
    let o = propagated_calls(func, e, "overflow"@, t, ds, n);
    lemma_in_both(a, b, cand);
    lemma_in_both(a + b, d, cand);
    lemma_in_both(a + b + d, o, cand);
    assert(bounds_candidates(p, f, t).contains(cand));
}

// ---- Obligations ----

/// The nil checker asks of every call by name whether it breaks a requirement of its callee.
pub proof fn nil_checker_asks_of_calls(
    p: &Program,
    f: FuncId,
    t: TableV,
    func: &Function,
    e: EncodedV,
    k: int,
    i: int,
    c: FuncId,
    args: Seq<ValueId>,
)
    requires
        nil_encoding(p, f, t) == Some((*func, e)),
        proper(e),
        calls_at(func, k, c, args),
        0 <= i < t.summary(c).requires_.len(),
        t.summary(c).requires_[i].tag == "nil-deref"@,
        at_call(e, t.summary(c).requires_[i], args) is Some,
    ensures
        exists|o: ObligationV| #[trigger]
            nil_obligations(p, f, t).contains(o) && asks_of_call(
                p,
                func,
                e,
                "nil-deref"@,
                clause_terms(t.summary(f).requires_),
                t,
                derefs(p, func),
                k,
                i,
                c,
                args,
                o,
            ),
{
    let ds = derefs(p, func);
    let pre = clause_terms(t.summary(f).requires_);
    every_requirement_is_asked_about(p, func, e, "nil-deref"@, pre, t, ds, k, i, c, args);
    let calls = calls_obligations(p, func, e, "nil-deref"@, pre, t, ds, func.sites().len() as int);
    let o = choose|o: ObligationV| #[trigger]
        calls.contains(o) && asks_of_call(p, func, e, "nil-deref"@, pre, t, ds, k, i, c, args, o);
    lemma_in_both(
        deref_obligations(p, f, func, e, t, pre, ds, ds.len() as int),
        calls,
        o,
    );
    assert(nil_obligations(p, f, t).contains(o));
}

/// The bounds checker asks of every call by name whether it breaks a requirement of its callee,
/// for each of its tags.
pub proof fn bounds_checker_asks_of_calls(
    p: &Program,
    f: FuncId,
    t: TableV,
    func: &Function,
    e: EncodedV,
    tag: Seq<char>,
    k: int,
    i: int,
    c: FuncId,
    args: Seq<ValueId>,
)
    requires
        bounds_encoding(p, f) == Some((*func, e)),
        proper(e),
        is_bounds_tag(tag),
        calls_at(func, k, c, args),
        0 <= i < t.summary(c).requires_.len(),
        t.summary(c).requires_[i].tag == tag,
        at_call(e, t.summary(c).requires_[i], args) is Some,
    ensures
        exists|o: ObligationV| #[trigger]
            bounds_obligations(p, f, t).contains(o) && asks_of_call(
                p,
                func,
                e,
                tag,
                clause_terms(t.summary(f).requires_),
                t,
                Seq::empty(),
                k,
                i,
                c,
                args,
                o,
            ),
{
    let ds = Seq::<Deref>::empty();
    let pre = clause_terms(t.summary(f).requires_);
    let n = func.sites().len() as int;
    every_requirement_is_asked_about(p, func, e, tag, pre, t, ds, k, i, c, args);
    let calls = calls_obligations(p, func, e, tag, pre, t, ds, n);
    let x = choose|o: ObligationV| #[trigger]
        calls.contains(o) && asks_of_call(p, func, e, tag, pre, t, ds, k, i, c, args, o);
    let xs = fault_sites(p, func, e);
    let a = site_obligations(p, f, func, e, pre, xs, xs.len() as int);
    let b = calls_obligations(p, func, e, "bounds"@, pre, t, ds, n);
    let d = calls_obligations(p, func, e, "div-zero"@, pre, t, ds, n);
    let o = calls_obligations(p, func, e, "overflow"@, pre, t, ds, n);
    lemma_in_both(a, b, x);
    lemma_in_both(a + b, d, x);
    lemma_in_both(a + b + d, o, x);
    assert(bounds_obligations(p, f, t).contains(x));
}

// ---- Guarantees about errors ----

/// Whether a clause says that results `x` and `i` are not both nil, and no more.
pub open spec fn says_not_both_nil(c: ClauseV, x: u32, i: u32) -> bool {
    forall|inner: Env| #[trigger]
        holds(c.term, inner) == (inner(iface_name(IfaceVar::Result(x)), Sort::Ptr) != Value::Ptr(0)
            || inner(iface_name(IfaceVar::Result(i)), Sort::Ptr) != Value::Ptr(0))
}

proof fn lemma_correlations_keep(
    p: &Program,
    f: &Function,
    e: EncodedV,
    rs: Seq<TypeId>,
    verdicts: Seq<SatResult>,
    cs: Seq<ClauseV>,
    i: int,
    n: int,
    d: ClauseV,
)
    requires
        cs.contains(d),
    ensures
        with_correlations(p, f, e, rs, verdicts, cs, i, n).contains(d),
    decreases n,
{
    if n > 0 {
        lemma_correlations_keep(p, f, e, rs, verdicts, cs, i, n - 1, d);
        lemma_pushed_has(
            with_correlations(p, f, e, rs, verdicts, cs, i, n - 1),
            correlation((n - 1) as u32, i as u32),
            d,
        );
    }
}

proof fn lemma_correlation_made(
    p: &Program,
    f: &Function,
    e: EncodedV,
    rs: Seq<TypeId>,
    verdicts: Seq<SatResult>,
    cs: Seq<ClauseV>,
    i: int,
    n: int,
    x: int,
)
    requires
        0 <= x < n <= rs.len(),
        is_error_type(&p.types, rs[x]),
        x != i,
        correlated(p, f, e, rs, verdicts, x, i),
    ensures
        with_correlations(p, f, e, rs, verdicts, cs, i, n).contains(
            correlation(x as u32, i as u32),
        ),
    decreases n,
{
    let before = with_correlations(p, f, e, rs, verdicts, cs, i, n - 1);
    if x < n - 1 {
        lemma_correlation_made(p, f, e, rs, verdicts, cs, i, n - 1, x);
    }
    lemma_pushed_has(
        before,
        correlation((n - 1) as u32, i as u32),
        correlation(x as u32, i as u32),
    );
}

proof fn lemma_guarantees_keep(
    p: &Program,
    f: &Function,
    e: EncodedV,
    rs: Seq<TypeId>,
    verdicts: Seq<SatResult>,
    m: int,
    n: int,
    d: ClauseV,
)
    requires
        0 <= m <= n <= rs.len(),
        guarantees(p, f, e, rs, verdicts, m).contains(d),
    ensures
        guarantees(p, f, e, rs, verdicts, n).contains(d),
    decreases n,
{
    if m < n {
        lemma_guarantees_keep(p, f, e, rs, verdicts, m, n - 1, d);
        let before = guarantees(p, f, e, rs, verdicts, n - 1);
        lemma_pushed_has(before, nonnil_clause((n - 1) as u32), d);
        lemma_correlations_keep(p, f, e, rs, verdicts, before, n - 1, rs.len() as int, d);
    }
}

/// A pointer result that may be nil, but is answered as never nil wherever an error result is
/// the constant nil, is guaranteed not to be nil together with that error.
pub proof fn results_without_an_error_are_guaranteed(
    p: &Program,
    f: FuncId,
    t: TableV,
    func: &Function,
    e: EncodedV,
    rs: Seq<TypeId>,
    verdicts: Seq<SatResult>,
    x: int,
    i: int,
    j: int,
)
    requires
        nil_encoding(p, f, t) == Some((*func, e)),
        has_returns(p, func),
        results_of_sig(p, func) == Some(rs),
        0 <= i < rs.len() <= u32::MAX,
        0 <= x < rs.len(),
        x != i,
        is_error_type(&p.types, rs[x]),
        sort_of_type(&p.types, rs[i]) == Some(Sort::Ptr),
        0 <= j < ret_sites(func).len(),
        !never_nil(p, func, e, rs, verdicts, i, j),
        forall|k: int|
            0 <= k < ret_sites(func).len() && written_nil(
                func,
                returned(func, ret_sites(func)[k])[x],
            ) ==> #[trigger] never_nil(p, func, e, rs, verdicts, i, k),
    ensures
        exists|c: ClauseV| #[trigger]
            nil_ensures(p, f, t, verdicts).contains(c) && c.tag == "nil-deref"@ && says_not_both_nil(
                c,
                x as u32,
                i as u32,
            ),
{
    assert(correlated(p, func, e, rs, verdicts, x, i)) by {
        assert forall|k: int|
            0 <= k < ret_sites(func).len() && const_nil(
                func,
                returned(func, ret_sites(func)[k])[x],
            ) implies #[trigger] never_nil(p, func, e, rs, verdicts, i, k) by {
            assert(written_nil(func, returned(func, ret_sites(func)[k])[x]));
        }
    }
    let c = correlation(x as u32, i as u32);
    let before = guarantees(p, func, e, rs, verdicts, i);
    lemma_correlation_made(p, func, e, rs, verdicts, before, i, rs.len() as int, x);
    assert(guarantees(p, func, e, rs, verdicts, i + 1).contains(c));
    lemma_guarantees_keep(p, func, e, rs, verdicts, i + 1, rs.len() as int, c);
    assert(nil_ensures(p, f, t, verdicts).contains(c));
    assert forall|inner: Env| #[trigger] holds(c.term, inner) == (inner(
        iface_name(IfaceVar::Result(x as u32)),
        Sort::Ptr,
    ) != Value::Ptr(0) || inner(iface_name(IfaceVar::Result(i as u32)), Sort::Ptr) != Value::Ptr(0)) by {
        reveal_with_fuel(value, 4);
        let parts = c.term->Or_0;
        or_is_some(parts, inner);
        assert(parts.len() == 2);
        assert(holds(parts[0], inner) == (inner(
            iface_name(IfaceVar::Result(x as u32)),
            Sort::Ptr,
        ) != Value::Ptr(0)));
        assert(holds(parts[1], inner) == (inner(
            iface_name(IfaceVar::Result(i as u32)),
            Sort::Ptr,
        ) != Value::Ptr(0)));
    }
}

// ---- Summaries ----

/// What any of the checkers infers is in what is inferred.
pub proof fn inferred_clauses_are_kept<C: Checker>(
    p: &Program,
    f: FuncId,
    t: TableV,
    cs: Seq<C>,
    m: AnswersV,
    n: nat,
    i: int,
    c: ClauseV,
)
    requires
        0 <= i < n <= cs.len(),
    ensures
        cs[i].requires_of(p, f, t, verdicts_on(m, cs[i].requires_asked(p, f, t))).contains(c)
            ==> requires_upto(p, f, t, cs, m, n).contains(c),
        cs[i].ensures_of(p, f, t, verdicts_on(m, cs[i].ensures_asked(p, f, t))).contains(c)
            ==> ensures_upto(p, f, t, cs, m, n).contains(c),
    decreases n,
{
    let b = (n - 1) as nat;
    let x = cs[n - 1];
    lemma_in_both(
        requires_upto(p, f, t, cs, m, b),
        x.requires_of(p, f, t, verdicts_on(m, x.requires_asked(p, f, t))),
        c,
    );
    lemma_in_both(
        ensures_upto(p, f, t, cs, m, b),
        x.ensures_of(p, f, t, verdicts_on(m, x.ensures_asked(p, f, t))),
        c,
    );
    if i < n - 1 {
        inferred_clauses_are_kept(p, f, t, cs, m, b, i, c);
    }
}

/// The summary of a function with a body on which no checker fails has its collected effects,
/// and all that any of the checkers infers.
pub proof fn summaries_hold_what_is_inferred<C: Checker>(
    p: &Program,
    g: &CallGraph,
    f: FuncId,
    t: TableV,
    cs: Seq<C>,
    m: AnswersV,
    i: int,
    c: ClauseV,
)
    requires
        p.body(f) is Some,
        !analysis_fails(p, f, t, cs, m),
        0 <= i < cs.len(),
    ensures
        ({
            let s = function_summary(p, g, f, t, cs, m, None);
            &&& s.effects == collected(p, f, g, t)
            &&& s.provenance == Provenance::Inferred
            &&& cs[i].requires_of(p, f, t, verdicts_on(m, cs[i].requires_asked(p, f, t))).contains(
                c,
            ) ==> s.requires_.contains(c)
            &&& cs[i].ensures_of(p, f, t, verdicts_on(m, cs[i].ensures_asked(p, f, t))).contains(c)
                ==> s.ensures_.contains(c)
        }),
{
    inferred_clauses_are_kept(p, f, t, cs, m, cs.len(), i, c);
}

// ---- Findings ----

proof fn lemma_checkers_has<C: Checker>(
    p: &Program,
    f: FuncId,
    t: TableV,
    cs: Seq<C>,
    m: AnswersV,
    n: nat,
    i: int,
    x: FindingV,
)
    requires
        0 <= i < n <= cs.len(),
        ({
            let obs = cs[i].obligations_of(p, f, t);
            raised_upto(p, f, cs[i].name_of(), obs, m, obs.len()).contains(x)
        }),
    ensures
        checkers_upto(p, f, t, cs, m, n).contains(x),
    decreases n,
{
    let c = cs[n - 1];
    let obs = c.obligations_of(p, f, t);
    lemma_in_both(
        checkers_upto(p, f, t, cs, m, (n - 1) as nat),
        raised_upto(p, f, c.name_of(), obs, m, obs.len()),
        x,
    );
    if i < n - 1 {
        lemma_checkers_has(p, f, t, cs, m, (n - 1) as nat, i, x);
    }
}

/// Every obligation of every checker whose query is answered as satisfiable is among the
/// findings of the function, under the checker's name.
pub proof fn every_violation_is_a_finding<C: Checker>(
    p: &Program,
    f: FuncId,
    t: TableV,
    cs: Seq<C>,
    m: AnswersV,
    anns: &Annotations,
    i: int,
    j: int,
)
    requires
        !checking_failed(p, f, t, cs, cs.len()),
        0 <= i < cs.len(),
        0 <= j < cs[i].obligations_of(p, f, t).len(),
        answer(m, cs[i].obligations_of(p, f, t)[j].query).result_of() == SatResult::Sat,
    ensures
        exists|x: FindingV| #[trigger]
            function_findings(p, f, t, cs, m, anns).contains(x) && reports(
                p,
                f,
                cs[i].name_of(),
                cs[i].obligations_of(p, f, t)[j],
                x,
            ),
{
    broadcast use vstd::seq_lib::group_to_multiset_ensures;

    let obs = cs[i].obligations_of(p, f, t);
    let name = cs[i].name_of();
    satisfiable_obligations_are_reported(p, f, name, obs, m, j);
    let raised = raised_upto(p, f, name, obs, m, obs.len());
    let k = choose|k: int|
        0 <= k < raised.len() && reports(p, f, name, obs[j], #[trigger] raised[k]);
    let x = raised[k];
    assert(raised.contains(x));
    lemma_checkers_has(p, f, t, cs, m, cs.len(), i, x);
    let a = checkers_upto(p, f, t, cs, m, cs.len());
    let contracts = call_contracts(p, f, t, anns);
    let b = raised_upto(p, f, CONTRACT@, contracts, m, contracts.len());
    let c = guarantees_reported(p, f, t, anns, m);
    lemma_in_both(a, b, x);
    lemma_in_both(a + b, c, x);
    let all = unsorted_findings(p, f, t, cs, m, anns);
    sorting_sorts::<Finding>(all);
    let fs = function_findings(p, f, t, cs, m, anns);
    assert(all.to_multiset().count(x) > 0);
    assert(fs.to_multiset().count(x) > 0);
    assert(fs.contains(x));
}

// ---- Annotated guarantees ----

proof fn lemma_return_place(
    f: &Function,
    e: EncodedV,
    own: Seq<TermV>,
    a: AnnClause,
    j: int,
    n: int,
)
    requires
        0 <= j < n,
        return_query(f, e, own, a, ret_sites(f)[j]) is Some,
    ensures
        ({
            let k = return_queries(f, e, own, a, j).len() as int;
            &&& k < return_queries(f, e, own, a, n).len()
            &&& return_queries(f, e, own, a, n)[k] == return_query(
                f,
                e,
                own,
                a,
                ret_sites(f)[j],
            ).unwrap()
        }),
    decreases n,
{
    if j < n - 1 {
        lemma_return_place(f, e, own, a, j, n - 1);
    }
}

proof fn lemma_clause_place(
    f: &Function,
    e: EncodedV,
    own: Seq<TermV>,
    anns: Seq<AnnClause>,
    i: int,
    j: int,
    n: int,
)
    requires
        0 <= i < n <= anns.len(),
        0 <= j < ret_sites(f).len(),
        return_query(f, e, own, anns[i], ret_sites(f)[j]) is Some,
    ensures
        ({
            let k = (clause_queries(f, e, own, anns, i).len() + return_queries(
                f,
                e,
                own,
                anns[i],
                j,
            ).len()) as int;
            &&& k < clause_queries(f, e, own, anns, n).len()
            &&& clause_queries(f, e, own, anns, n)[k] == return_query(
                f,
                e,
                own,
                anns[i],
                ret_sites(f)[j],
            ).unwrap()
        }),
    decreases n,
{
    if i < n - 1 {
        lemma_clause_place(f, e, own, anns, i, j, n - 1);
    } else {
        lemma_return_place(f, e, own, anns[i], j, ret_sites(f).len() as int);
    }
}

/// A guarantee that counts as proved holds: if no query is answered as unsatisfiable that is
/// ever the case, every execution that keeps the function's own requirements returns with the
/// guarantee true of the parameters and of what is returned.
pub proof fn proven_guarantees_hold(
    f: &Function,
    e: EncodedV,
    own: Seq<TermV>,
    anns: Seq<AnnClause>,
    verdicts: Seq<SatResult>,
    i: int,
    j: int,
    env: Env,
)
    requires
        0 <= i < anns.len(),
        0 <= j < ret_sites(f).len(),
        proven(f, e, own, anns, verdicts, i),
        answers_right(clause_queries(f, e, own, anns, anns.len() as int), verdicts),
        comes_to(e, ret_sites(f)[j], env),
        all_hold(own, env),
    ensures
        bound_clause(
            anns[i].clause@,
            values_at(e, f.params@),
            values_at(e, returned(f, ret_sites(f)[j])),
        ).bound matches Some(b) && holds(b, env),
{
    let s = ret_sites(f)[j];
    assert(holds_at(f, e, own, anns, verdicts, i, j));
    lemma_clause_place(f, e, own, anns, i, j, anns.len() as int);
    guarantees_are_asked_about_at_returns(f, e, own, anns[i], s);
    let qs = clause_queries(f, e, own, anns, anns.len() as int);
    let k = (clause_queries(f, e, own, anns, i).len() + return_queries(
        f,
        e,
        own,
        anns[i],
        j,
    ).len()) as int;
    assert(!the_case(qs[k], env));
}

// ---- Encodings ----

/// Every encoding has boolean guards, and models each value by a term of the sort of its type.
pub proof fn encodings_are_typed(p: &Program, id: FuncId, f: Function, t: TableV)
    requires
        p.body(id) == Some(f),
        constants_fit(p, &f),
    ensures
        encoding(p, id) matches Ok(e) ==> proper(e) && typed(p, &f, e),
        encoding_with(p, id, t) matches Ok(e) ==> proper(e) && typed(p, &f, e),
{
    let e = encoded(p, &f);
    let n = f.sites().len() as int;
    lemma_encoded_dag(p, &f);
    modelled_values_are_those_of_the_function(p, &f, ValueId(0));
    let env: Env = |n: Seq<char>, s: Sort| Value::Ptr(0);
    calls_keep_their_guarantees(&f, e, t, n, env);
    let w = with_ensures(&f, e, t, n);
    assert forall|v: ValueId| #[trigger] w.value(v) == e.value(v) by {}
    assert(proper(e));
    assert(proper(w));
}

} // verus!
