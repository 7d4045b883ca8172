//! What is asked about calls and returns: whether an execution reaches a call with the callee's
//! requirement false of the arguments, or a return with a guarantee false of what is returned.

use vstd::prelude::*;
use crate::annotations::{AnnClause, Annotations};
use crate::blocking::{lemma_in_both, lemma_in_opt};
use crate::checker::{CandidateV, ObligationV};
use crate::contracts::{contract_at, contract_obligation, contracts_upto, return_query};
use crate::encode::{opt_seq, values_at, EncodedV};
use crate::ir::{Callee, FuncId, Function, Op, Program, Site, ValueId};
use crate::nilness::{
    all_went_well, lemma_all_hold_append, lemma_facts, proper, queries_ask_for_executions, reached,
    the_case,
};
use crate::rets::returned;
use crate::shared::{
    assumed, call_bounds, call_obligation, call_obligations, calls_obligations, over_params,
    propagated, propagated_bounds, propagated_calls, Deref,
};
use crate::summary::{bound_all, bound_clause, BoundV, ClauseV, Provenance, TableV};
use crate::term::{mk_not, TermV};
use crate::values::{all_hold, holds, Env};

verus! {

// ---- Requirements at calls ----

/// Requirement `c` of a callee, of these arguments.
pub open spec fn at_call(e: EncodedV, c: ClauseV, args: Seq<ValueId>) -> Option<TermV> {
    bound_clause(c, values_at(e, args), Seq::empty()).bound
}

/// Whether an execution reaches the call at `s` with `demand` false, where `pre` holds and
/// every dereference that comes before went well.
pub open spec fn breaks(
    e: EncodedV,
    pre: Seq<TermV>,
    ds: Seq<Deref>,
    s: Site,
    demand: TermV,
    env: Env,
) -> bool {
    &&& all_hold(e.asserts, env)
    &&& reached(e, s.0 as int, env)
    &&& all_hold(pre, env)
    &&& all_went_well(e, ds, s.0 as int, s.1 as int, ds.len() as int, env)
    &&& !holds(demand, env)
}

proof fn lemma_break_query(
    e: EncodedV,
    pre: Seq<TermV>,
    ds: Seq<Deref>,
    s: Site,
    b: TermV,
    v: TermV,
    env: Env,
)
    requires
        proper(e),
        mk_not(b) == Some(v),
    ensures
        the_case(
            e.reach(s.0 as int, (pre + assumed(e, ds, s.0 as int, s.1 as int)).push(v)),
            env,
        ) == breaks(e, pre, ds, s, b, env),
{
    let known = assumed(e, ds, s.0 as int, s.1 as int);
    let extra = (pre + known).push(v);
    queries_ask_for_executions(e, s.0 as int, extra, env);
    lemma_facts(e, ds, s.0 as int, s.1 as int, ds.len() as int, env);
    lemma_all_hold_append(pre, known, env);
    lemma_all_hold_append(pre + known, seq![v], env);
    assert(extra =~= (pre + known) + seq![v]);
    assert(seq![v][0] == v);
    assert(all_hold(seq![v], env) == holds(v, env));
}

/// Whether instruction `k` calls `c` by name with `args`.
pub open spec fn calls_at(f: &Function, k: int, c: FuncId, args: Seq<ValueId>) -> bool {
    0 <= k < f.sites().len() && match f.op_at(f.sites()[k]) {
        Op::Call { callee: Callee::Static(d), args: a, .. } => d == c && a@ == args,
        _ => false,
    }
}

/// Whether `o` asks of instruction `k`, a call by name, whether it breaks requirement `i` of
/// its callee.
pub open spec fn asks_of_call(
    p: &Program,
    f: &Function,
    e: EncodedV,
    tag: Seq<char>,
    pre: Seq<TermV>,
    t: TableV,
    ds: Seq<Deref>,
    k: int,
    i: int,
    c: FuncId,
    args: Seq<ValueId>,
    o: ObligationV,
) -> bool {
    let s = f.sites()[k];
    let rs = t.summary(c).requires_;
    &&& calls_at(f, k, c, args)
    &&& 0 <= i < rs.len()
    &&& rs[i].tag == tag
    &&& o.tag == tag
    &&& o.pos == f.pos_at(s)
    &&& o.message == "call to "@ + p.name_of(c) + " violates its "@ + tag + " requirement"@
    &&& at_call(e, rs[i], args) matches Some(b) && forall|env: Env| #[trigger]
        the_case(o.query, env) == breaks(e, pre, ds, s, b, env)
}

/// What is asked of the call at instruction `k` about requirement `i`.
spec fn call_asked(
    p: &Program,
    f: &Function,
    e: EncodedV,
    tag: Seq<char>,
    pre: Seq<TermV>,
    t: TableV,
    ds: Seq<Deref>,
    k: int,
    i: int,
) -> Option<ObligationV> {
    let s = f.sites()[k];
    match f.op_at(s) {
        Op::Call { callee: Callee::Static(c), args, .. } => if 0 <= i < t.summary(c).requires_.len() {
            call_obligation(
                p,
                f,
                e,
                tag,
                pre + assumed(e, ds, s.0 as int, s.1 as int),
                s,
                c,
                call_bounds(e, t, c, args@)[i],
            )
        } else {
            None
        },
        _ => None,
    }
}

proof fn lemma_one_call(
    p: &Program,
    f: &Function,
    e: EncodedV,
    tag: Seq<char>,
    extra: Seq<TermV>,
    s: Site,
    c: FuncId,
    bs: Seq<BoundV>,
    n: int,
    o: ObligationV,
)
    requires
        0 <= n <= bs.len(),
    ensures
        call_obligations(p, f, e, tag, extra, s, c, bs, n).contains(o) == exists|i: int|
            0 <= i < n && call_obligation(p, f, e, tag, extra, s, c, #[trigger] bs[i]) == Some(o),
    decreases n,
{
    if n > 0 {
        lemma_one_call(p, f, e, tag, extra, s, c, bs, n - 1, o);
        let before = call_obligations(p, f, e, tag, extra, s, c, bs, n - 1);
        let last = call_obligation(p, f, e, tag, extra, s, c, bs[n - 1]);
        lemma_in_both(before, opt_seq(last), o);
        lemma_in_opt(last, o);
        if before.contains(o) {
            let i = choose|i: int|
                0 <= i < n - 1 && call_obligation(p, f, e, tag, extra, s, c, #[trigger] bs[i])
                    == Some(o);
            assert(0 <= i < n && call_obligation(p, f, e, tag, extra, s, c, bs[i]) == Some(o));
        }
        if exists|i: int|
            0 <= i < n && call_obligation(p, f, e, tag, extra, s, c, #[trigger] bs[i]) == Some(o) {
            let i = choose|i: int|
                0 <= i < n && call_obligation(p, f, e, tag, extra, s, c, #[trigger] bs[i]) == Some(o);
            if i < n - 1 {
                assert(0 <= i < n - 1);
            }
        }
    }
}

proof fn lemma_calls(
    p: &Program,
    f: &Function,
    e: EncodedV,
    tag: Seq<char>,
    pre: Seq<TermV>,
    t: TableV,
    ds: Seq<Deref>,
    n: int,
    o: ObligationV,
)
    requires
        0 <= n <= f.sites().len(),
    ensures
        calls_obligations(p, f, e, tag, pre, t, ds, n).contains(o) == exists|k: int, i: int|
            0 <= k < n && #[trigger] call_asked(p, f, e, tag, pre, t, ds, k, i) == Some(o),
    decreases n,
{
    if n > 0 {
        lemma_calls(p, f, e, tag, pre, t, ds, n - 1, o);
        let before = calls_obligations(p, f, e, tag, pre, t, ds, n - 1);
        let s = f.sites()[n - 1];
        let all = calls_obligations(p, f, e, tag, pre, t, ds, n);
        if let Op::Call { callee: Callee::Static(c), args, .. } = f.op_at(s) {
            let bs = call_bounds(e, t, c, args@);
            let extra = pre + assumed(e, ds, s.0 as int, s.1 as int);
            let here = call_obligations(p, f, e, tag, extra, s, c, bs, bs.len() as int);
            lemma_one_call(p, f, e, tag, extra, s, c, bs, bs.len() as int, o);
            lemma_in_both(before, here, o);
            if here.contains(o) {
                let i = choose|i: int|
                    0 <= i < bs.len() && call_obligation(
                        p,
                        f,
                        e,
                        tag,
                        extra,
                        s,
                        c,
                        #[trigger] bs[i],
                    ) == Some(o);
                assert(call_asked(p, f, e, tag, pre, t, ds, n - 1, i) == Some(o));
            }
        }
        if before.contains(o) {
            let (k, i) = choose|k: int, i: int|
                0 <= k < n - 1 && #[trigger] call_asked(p, f, e, tag, pre, t, ds, k, i) == Some(o);
            assert(0 <= k < n && call_asked(p, f, e, tag, pre, t, ds, k, i) == Some(o));
        }
        if exists|k: int, i: int|
            0 <= k < n && #[trigger] call_asked(p, f, e, tag, pre, t, ds, k, i) == Some(o) {
            let (k, i) = choose|k: int, i: int|
                0 <= k < n && #[trigger] call_asked(p, f, e, tag, pre, t, ds, k, i) == Some(o);
            if k < n - 1 {
                assert(before.contains(o));
            } else if let Op::Call { callee: Callee::Static(c), args, .. } = f.op_at(s) {
                let bs = call_bounds(e, t, c, args@);
                assert(0 <= i < bs.len());
                assert(bs[i] == bs[i]);
            }
        }
    }
}

proof fn lemma_asked(
    p: &Program,
    f: &Function,
    e: EncodedV,
    tag: Seq<char>,
    pre: Seq<TermV>,
    t: TableV,
    ds: Seq<Deref>,
    k: int,
    i: int,
    c: FuncId,
    args: Seq<ValueId>,
)
    requires
        proper(e),
        calls_at(f, k, c, args),
    ensures
        match call_asked(p, f, e, tag, pre, t, ds, k, i) {
            Some(o) => asks_of_call(p, f, e, tag, pre, t, ds, k, i, c, args, o),
            None => !(0 <= i < t.summary(c).requires_.len() && t.summary(c).requires_[i].tag == tag
                && at_call(e, t.summary(c).requires_[i], args) is Some),
        },
{
    let s = f.sites()[k];
    let rs = t.summary(c).requires_;
    if 0 <= i < rs.len() {
        let bs = bound_all(rs, values_at(e, args), Seq::empty());
        assert(bs[i] == bound_clause(rs[i], values_at(e, args), Seq::empty()));
        if let Some(b) = at_call(e, rs[i], args) {
            let v = mk_not(b).unwrap();
            assert(bs[i].violation == Some(v));
            assert forall|env: Env| #[trigger]
                the_case(
                    e.reach(s.0 as int, (pre + assumed(e, ds, s.0 as int, s.1 as int)).push(v)),
                    env,
                ) == breaks(e, pre, ds, s, b, env) by {
                lemma_break_query(e, pre, ds, s, b, v, env);
            }
        }
    }
}

/// Every call by name is asked about for every requirement of its callee with the tag that can
/// be told of its arguments: whether an execution breaks it there.
pub proof fn every_requirement_is_asked_about(
    p: &Program,
    f: &Function,
    e: EncodedV,
    tag: Seq<char>,
    pre: Seq<TermV>,
    t: TableV,
    ds: Seq<Deref>,
    k: int,
    i: int,
    c: FuncId,
    args: Seq<ValueId>,
)
    requires
        proper(e),
        calls_at(f, k, c, args),
        0 <= i < t.summary(c).requires_.len(),
        t.summary(c).requires_[i].tag == tag,
        at_call(e, t.summary(c).requires_[i], args) is Some,
    ensures
        exists|o: ObligationV| #[trigger]
            calls_obligations(p, f, e, tag, pre, t, ds, f.sites().len() as int).contains(o)
                && asks_of_call(p, f, e, tag, pre, t, ds, k, i, c, args, o),
{
    lemma_asked(p, f, e, tag, pre, t, ds, k, i, c, args);
    let o = call_asked(p, f, e, tag, pre, t, ds, k, i).unwrap();
    lemma_calls(p, f, e, tag, pre, t, ds, f.sites().len() as int, o);
    assert(call_asked(p, f, e, tag, pre, t, ds, k, i) == Some(o));
}

/// Whether `o` asks whether some call breaks some requirement.
pub open spec fn asks_of_some_call(
    p: &Program,
    f: &Function,
    e: EncodedV,
    tag: Seq<char>,
    pre: Seq<TermV>,
    t: TableV,
    ds: Seq<Deref>,
    o: ObligationV,
) -> bool {
    exists|k: int, i: int, c: FuncId, args: Seq<ValueId>| #[trigger]
        asks_of_call(p, f, e, tag, pre, t, ds, k, i, c, args, o)
}

/// Nothing else is asked about calls.
pub proof fn only_requirements_are_asked_about(
    p: &Program,
    f: &Function,
    e: EncodedV,
    tag: Seq<char>,
    pre: Seq<TermV>,
    t: TableV,
    ds: Seq<Deref>,
    o: ObligationV,
)
    requires
        proper(e),
        calls_obligations(p, f, e, tag, pre, t, ds, f.sites().len() as int).contains(o),
    ensures
        asks_of_some_call(p, f, e, tag, pre, t, ds, o),
{
    let n = f.sites().len() as int;
    lemma_calls(p, f, e, tag, pre, t, ds, n, o);
    let (k, i) = choose|k: int, i: int|
        0 <= k < n && #[trigger] call_asked(p, f, e, tag, pre, t, ds, k, i) == Some(o);
    if let Op::Call { callee: Callee::Static(c), args, .. } = f.op_at(f.sites()[k]) {
        lemma_asked(p, f, e, tag, pre, t, ds, k, i, c, args@);
        assert(asks_of_call(p, f, e, tag, pre, t, ds, k, i, c, args@, o));
    }
}

// ---- Requirements that travel up ----

/// Whether `cand` proposes to require of the caller what requirement `i` of the callee of
/// instruction `k` says of the arguments, if an execution can break it there.
pub open spec fn hands_up(
    f: &Function,
    e: EncodedV,
    tag: Seq<char>,
    t: TableV,
    ds: Seq<Deref>,
    k: int,
    i: int,
    c: FuncId,
    args: Seq<ValueId>,
    cand: CandidateV,
) -> bool {
    let s = f.sites()[k];
    let rs = t.summary(c).requires_;
    &&& calls_at(f, k, c, args)
    &&& 0 <= i < rs.len()
    &&& rs[i].tag == tag
    &&& at_call(e, rs[i], args) matches Some(b) && {
        &&& over_params(b)
        &&& cand.clause == (ClauseV { tag, term: b, provenance: Provenance::Inferred })
        &&& forall|env: Env| #[trigger]
            the_case(cand.query, env) == breaks(e, Seq::empty(), ds, s, b, env)
    }
}

proof fn lemma_propagated_has(
    e: EncodedV,
    tag: Seq<char>,
    known: Seq<TermV>,
    block: int,
    bs: Seq<BoundV>,
    n: int,
    i: int,
    cand: CandidateV,
)
    requires
        0 <= i < n <= bs.len(),
        propagated(e, tag, known, block, bs[i]) == Some(cand),
    ensures
        propagated_bounds(e, tag, known, block, bs, n).contains(cand),
    decreases n,
{
    let before = propagated_bounds(e, tag, known, block, bs, n - 1);
    let last = propagated(e, tag, known, block, bs[n - 1]);
    lemma_in_both(before, opt_seq(last), cand);
    lemma_in_opt(last, cand);
    if i < n - 1 {
        lemma_propagated_has(e, tag, known, block, bs, n - 1, i, cand);
    }
}

proof fn lemma_propagated_calls_has(
    f: &Function,
    e: EncodedV,
    tag: Seq<char>,
    t: TableV,
    ds: Seq<Deref>,
    n: int,
    k: int,
    i: int,
    c: FuncId,
    args: Seq<ValueId>,
    cand: CandidateV,
)
    requires
        0 <= k < n <= f.sites().len(),
        calls_at(f, k, c, args),
        0 <= i < t.summary(c).requires_.len(),
        propagated(
            e,
            tag,
            assumed(e, ds, f.sites()[k].0 as int, f.sites()[k].1 as int),
            f.sites()[k].0 as int,
            call_bounds(e, t, c, args)[i],
        ) == Some(cand),
    ensures
        propagated_calls(f, e, tag, t, ds, n).contains(cand),
    decreases n,
{
    let before = propagated_calls(f, e, tag, t, ds, n - 1);
    let s = f.sites()[n - 1];
    if k < n - 1 {
        lemma_propagated_calls_has(f, e, tag, t, ds, n - 1, k, i, c, args, cand);
    }
    if let Op::Call { callee: Callee::Static(d), args: a, .. } = f.op_at(s) {
        let bs = call_bounds(e, t, d, a@);
        let known = assumed(e, ds, s.0 as int, s.1 as int);
        let here = propagated_bounds(e, tag, known, s.0 as int, bs, bs.len() as int);
        lemma_in_both(before, here, cand);
        if k == n - 1 {
            lemma_propagated_has(e, tag, known, s.0 as int, bs, bs.len() as int, i, cand);
        }
    }
}

/// Every requirement of a callee that is a matter of the caller's parameters may become one of
/// the caller.
pub proof fn requirements_travel_up(
    f: &Function,
    e: EncodedV,
    tag: Seq<char>,
    t: TableV,
    ds: Seq<Deref>,
    k: int,
    i: int,
    c: FuncId,
    args: Seq<ValueId>,
)
    requires
        proper(e),
        calls_at(f, k, c, args),
        0 <= i < t.summary(c).requires_.len(),
        t.summary(c).requires_[i].tag == tag,
        at_call(e, t.summary(c).requires_[i], args) matches Some(b) && over_params(b),
    ensures
        exists|cand: CandidateV| #[trigger]
            propagated_calls(f, e, tag, t, ds, f.sites().len() as int).contains(cand) && hands_up(
                f,
                e,
                tag,
                t,
                ds,
                k,
                i,
                c,
                args,
                cand,
            ),
{
    let s = f.sites()[k];
    let known = assumed(e, ds, s.0 as int, s.1 as int);
    let rs = t.summary(c).requires_;
    let bs = call_bounds(e, t, c, args);
    assert(bs[i] == bound_clause(rs[i], values_at(e, args), Seq::empty()));
    let b = at_call(e, rs[i], args).unwrap();
    let v = mk_not(b).unwrap();
    let cand = propagated(e, tag, known, s.0 as int, bs[i]).unwrap();
    lemma_propagated_calls_has(
        f,
        e,
        tag,
        t,
        ds,
        f.sites().len() as int,
        k,
        i,
        c,
        args,
        cand,
    );
    assert(Seq::<TermV>::empty() + known =~= known);
    assert forall|env: Env| #[trigger] the_case(cand.query, env) == breaks(
        e,
        Seq::empty(),
        ds,
        s,
        b,
        env,
    ) by {
        lemma_break_query(e, Seq::empty(), ds, s, b, v, env);
    }
    assert(hands_up(f, e, tag, t, ds, k, i, c, args, cand));
}

// ---- Annotations ----

/// Whether an inferred requirement of the callee says the same.
pub open spec fn inferred_too(t: TableV, c: FuncId, demand: TermV) -> bool {
    exists|i: int|
        0 <= i < t.summary(c).requires_.len() && (#[trigger] t.summary(c).requires_[i]).provenance
            == Provenance::Inferred && t.summary(c).requires_[i].term == demand
}

/// An annotated requirement is asked about at a call: whether an execution that keeps the
/// caller's own requirements breaks it there. It is left to the checkers where one inferred
/// the same.
pub proof fn annotated_requirements_are_asked_about(
    p: &Program,
    f: &Function,
    e: EncodedV,
    pre: Seq<TermV>,
    t: TableV,
    s: Site,
    c: FuncId,
    args: Seq<ValueId>,
    a: AnnClause,
)
    requires
        proper(e),
    ensures
        match contract_obligation(p, f, e, pre, t, s, c, args, a) {
            Some(o) => {
                &&& !inferred_too(t, c, a.clause@.term)
                &&& o.pos == f.pos_at(s)
                &&& at_call(e, a.clause@, args) matches Some(b) && forall|env: Env| #[trigger]
                    the_case(o.query, env) == (all_hold(e.asserts, env) && reached(
                        e,
                        s.0 as int,
                        env,
                    ) && all_hold(pre, env) && !holds(b, env))
            },
            None => inferred_too(t, c, a.clause@.term) || at_call(e, a.clause@, args) is None,
        },
{
    if let Some(o) = contract_obligation(p, f, e, pre, t, s, c, args, a) {
        let b = at_call(e, a.clause@, args).unwrap();
        let v = mk_not(b).unwrap();
        assert forall|env: Env| #[trigger] the_case(o.query, env) == (all_hold(e.asserts, env)
            && reached(e, s.0 as int, env) && all_hold(pre, env) && !holds(b, env)) by {
            lemma_extra(e, pre, s, v, env);
        }
    }
}

/// A query with one more term asks for that as well.
pub proof fn lemma_extra(e: EncodedV, pre: Seq<TermV>, s: Site, v: TermV, env: Env)
    ensures
        the_case(e.reach(s.0 as int, pre.push(v)), env) == (all_hold(e.asserts, env) && reached(
            e,
            s.0 as int,
            env,
        ) && all_hold(pre, env) && holds(v, env)),
{
    queries_ask_for_executions(e, s.0 as int, pre.push(v), env);
    lemma_all_hold_append(pre, seq![v], env);
    assert(pre.push(v) =~= pre + seq![v]);
    assert(seq![v][0] == v);
    assert(all_hold(seq![v], env) == holds(v, env));
}

proof fn lemma_contract_at_has(
    p: &Program,
    f: &Function,
    e: EncodedV,
    pre: Seq<TermV>,
    t: TableV,
    s: Site,
    c: FuncId,
    args: Seq<ValueId>,
    anns: Seq<AnnClause>,
    n: int,
    i: int,
    o: ObligationV,
)
    requires
        0 <= i < n <= anns.len(),
        contract_obligation(p, f, e, pre, t, s, c, args, anns[i]) == Some(o),
    ensures
        contract_at(p, f, e, pre, t, s, c, args, anns, n).contains(o),
    decreases n,
{
    let before = contract_at(p, f, e, pre, t, s, c, args, anns, n - 1);
    let last = contract_obligation(p, f, e, pre, t, s, c, args, anns[n - 1]);
    lemma_in_both(before, opt_seq(last), o);
    lemma_in_opt(last, o);
    if i < n - 1 {
        lemma_contract_at_has(p, f, e, pre, t, s, c, args, anns, n - 1, i, o);
    }
}

/// What is asked about an annotated requirement is asked wherever the function is called by
/// name.
pub proof fn annotations_are_asked_about_at_every_call(
    p: &Program,
    f: &Function,
    e: EncodedV,
    pre: Seq<TermV>,
    anns: &Annotations,
    t: TableV,
    n: int,
    k: int,
    i: int,
    c: FuncId,
    args: Seq<ValueId>,
    o: ObligationV,
)
    requires
        0 <= k < n <= f.sites().len(),
        calls_at(f, k, c, args),
        anns.of(c) matches Some(a) && 0 <= i < a.requires_@.len() && contract_obligation(
            p,
            f,
            e,
            pre,
            t,
            f.sites()[k],
            c,
            args,
            a.requires_@[i],
        ) == Some(o),
    ensures
        contracts_upto(p, f, e, pre, anns, t, n).contains(o),
    decreases n,
{
    let before = contracts_upto(p, f, e, pre, anns, t, n - 1);
    let s = f.sites()[n - 1];
    if k < n - 1 {
        annotations_are_asked_about_at_every_call(
            p,
            f,
            e,
            pre,
            anns,
            t,
            n - 1,
            k,
            i,
            c,
            args,
            o,
        );
    }
    if let Op::Call { callee: Callee::Static(d), args: a, .. } = f.op_at(s) {
        if let Some(ann) = anns.of(d) {
            let m = ann.requires_@.len() as int;
            let here = contract_at(p, f, e, pre, t, s, d, a@, ann.requires_@, m);
            lemma_in_both(before, here, o);
            if k == n - 1 {
                lemma_contract_at_has(p, f, e, pre, t, s, d, a@, ann.requires_@, m, i, o);
            }
        }
    }
}

/// An annotated guarantee is asked about at a return: whether an execution that keeps the
/// function's own requirements returns there with the guarantee false of the parameters and
/// of what is returned.
pub proof fn guarantees_are_asked_about_at_returns(
    f: &Function,
    e: EncodedV,
    own: Seq<TermV>,
    a: AnnClause,
    s: Site,
)
    ensures
        ({
            let b = bound_clause(
                a.clause@,
                values_at(e, f.params@),
                values_at(e, returned(f, s)),
            ).bound;
            match return_query(f, e, own, a, s) {
                Some(q) => b is Some && forall|env: Env| #[trigger]
                    the_case(q, env) == (all_hold(e.asserts, env) && reached(e, s.0 as int, env)
                        && all_hold(own, env) && !holds(b.unwrap(), env)),
                None => b is None,
            }
        }),
{
    let b = bound_clause(
        a.clause@,
        values_at(e, f.params@),
        values_at(e, returned(f, s)),
    ).bound;
    if let Some(q) = return_query(f, e, own, a, s) {
        let v = mk_not(b.unwrap()).unwrap();
        assert forall|env: Env| #[trigger] the_case(q, env) == (all_hold(e.asserts, env) && reached(
            e,
            s.0 as int,
            env,
        ) && all_hold(own, env) && !holds(b.unwrap(), env)) by {
            lemma_extra(e, own, s, v, env);
        }
    }
}

} // verus!
