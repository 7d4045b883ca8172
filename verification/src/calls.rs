//! Clauses across calls: what a callee requires or guarantees of its parameters and results is
//! said of the arguments and of what the call returns.

use vstd::prelude::*;
use crate::encode::{
    call_facts, opt_seq, results_of, results_upto, under_guard, values_at, with_ensures, EncodedV,
};
use crate::formed::{lemma_vars_list, names_in, over, substitution_keeps_sorts};
use crate::ir::{Callee, Function, Op, ValueId};
use crate::leak::{conjoined, prefix_map, prefixed_query};
use crate::nilness::{lemma_all_hold_append, the_case};
use crate::query::QueryV;
use crate::summary::{
    binding, binding_map, bound_all, bound_clause, bound_term, iface_name, param_binds_argument,
    ClauseV, IfaceVar, Provenance, SummaryV, TableV,
};
use crate::term::{mk_not, Sort, TermV};
use crate::values::{all_hold, and_is_all, holds, or_is_some, value, Env};

verus! {

// ---- Substitution ----

/// Whether `inner` gives each variable named in `d` the value in `env` of what stands for it.
pub open spec fn agrees(m: Map<Seq<char>, TermV>, d: Set<Seq<char>>, env: Env, inner: Env) -> bool {
    forall|n: Seq<char>, s: Sort|
        d.contains(n) ==> #[trigger] inner(n, s) == (if m.contains_key(n) {
            value(m[n], env)
        } else {
            env(n, s)
        })
}

/// Replacing variables by terms is evaluating with the values of the terms for the variables.
pub proof fn substituting_is_evaluating(
    t: TermV,
    m: Map<Seq<char>, TermV>,
    d: Set<Seq<char>>,
    env: Env,
    inner: Env,
)
    requires
        t.well_sorted(),
        t.subst_fits(m),
        forall|n: Seq<char>| m.contains_key(n) ==> (#[trigger] m[n]).well_sorted(),
        names_in(t, d),
        agrees(m, d, env, inner),
    ensures
        value(t.subst(m), env) == value(t, inner),
    decreases t,
{
    match t {
        TermV::Var(n, s) => {
            assert(inner(n, s) == (if m.contains_key(n) {
                value(m[n], env)
            } else {
                env(n, s)
            }));
        },
        TermV::BoolLit(_) | TermV::PtrNil | TermV::BvLit(_, _) => {},
        TermV::Eq(x, y) | TermV::BvBin(_, x, y) | TermV::BvCmp(_, x, y) | TermV::SeqVal(x, y) => {
            substituting_is_evaluating(*x, m, d, env, inner);
            substituting_is_evaluating(*y, m, d, env, inner);
            substitution_keeps_sorts(*x, m);
        },
        TermV::Not(x) | TermV::PtrIsNil(x) | TermV::SeqLen(x) | TermV::SeqCap(x) => {
            substituting_is_evaluating(*x, m, d, env, inner);
        },
        TermV::And(v) => {
            let w = t.subst(m)->And_0;
            assert forall|i: int| 0 <= i < v.len() implies value(#[trigger] v[i], inner) == value(
                w[i],
                env,
            ) by {
                assert(names_in(v[i], d));
                substituting_is_evaluating(v[i], m, d, env, inner);
            }
            lemma_same_parts(w, v, env, inner);
            and_is_all(v, inner);
            and_is_all(w, env);
        },
        TermV::Or(v) => {
            let w = t.subst(m)->Or_0;
            assert forall|i: int| 0 <= i < v.len() implies value(#[trigger] v[i], inner) == value(
                w[i],
                env,
            ) by {
                assert(names_in(v[i], d));
                substituting_is_evaluating(v[i], m, d, env, inner);
            }
            lemma_same_parts(w, v, env, inner);
            or_is_some(v, inner);
            or_is_some(w, env);
        },
        TermV::Ite(c, x, y) => {
            substituting_is_evaluating(*c, m, d, env, inner);
            substituting_is_evaluating(*x, m, d, env, inner);
            substituting_is_evaluating(*y, m, d, env, inner);
        },
    }
}

proof fn lemma_same_parts(w: Seq<TermV>, v: Seq<TermV>, env: Env, inner: Env)
    requires
        w.len() == v.len(),
        forall|i: int|
            0 <= i < v.len() ==> value(#[trigger] v[i], inner) == value(w[i], env),
    ensures
        all_hold(w, env) == all_hold(v, inner),
        (exists|i: int| 0 <= i < w.len() && holds(#[trigger] w[i], env)) == (exists|i: int|
            0 <= i < v.len() && holds(#[trigger] v[i], inner)),
{
    assert forall|i: int| 0 <= i < v.len() implies holds(#[trigger] w[i], env) == holds(v[i], inner) by {
        assert(value(v[i], inner) == value(w[i], env));
    }
    if all_hold(w, env) {
        assert forall|i: int| 0 <= i < v.len() implies holds(#[trigger] v[i], inner) by {
            assert(holds(w[i], env));
        }
    }
    if exists|i: int| 0 <= i < w.len() && holds(#[trigger] w[i], env) {
        let i = choose|i: int| 0 <= i < w.len() && holds(#[trigger] w[i], env);
        assert(holds(v[i], inner));
    }
    if exists|i: int| 0 <= i < v.len() && holds(#[trigger] v[i], inner) {
        let i = choose|i: int| 0 <= i < v.len() && holds(#[trigger] v[i], inner);
        assert(holds(w[i], env));
    }
}

// ---- Clauses ----

/// Whether `inner` is how things look in the callee: parameter `i` has the value of argument
/// `i`, and result `i` the value of what the call returns there.
pub open spec fn in_callee(
    args: Seq<Option<TermV>>,
    results: Seq<Option<TermV>>,
    env: Env,
    inner: Env,
) -> bool {
    &&& forall|i: u32, s: Sort|
        i < args.len() && args[i as int] is Some ==> #[trigger] inner(
            iface_name(IfaceVar::Param(i)),
            s,
        ) == value(args[i as int].unwrap(), env)
    &&& forall|i: u32, s: Sort|
        i < results.len() && results[i as int] is Some ==> #[trigger] inner(
            iface_name(IfaceVar::Result(i)),
            s,
        ) == value(results[i as int].unwrap(), env)
}

/// Whether a clause speaks of parameters and results only.
pub open spec fn of_interface(t: TermV) -> bool {
    forall|n: Seq<char>| #[trigger]
        t.vars().contains_key(n) ==> exists|v: IfaceVar| #[trigger] iface_name(v) == n
}

/// Whether all terms in `s` are well sorted.
pub open spec fn slots_sorted(s: Seq<Option<TermV>>) -> bool {
    forall|i: int| 0 <= i < s.len() ==> (#[trigger] s[i] matches Some(t) ==> t.well_sorted())
}

/// At a call, a clause means what it means in the callee; its violation is the opposite.
pub proof fn clauses_mean_what_they_mean_in_the_callee(
    c: ClauseV,
    args: Seq<Option<TermV>>,
    results: Seq<Option<TermV>>,
    env: Env,
    inner: Env,
)
    requires
        c.term.well_sorted(),
        of_interface(c.term),
        slots_sorted(args),
        slots_sorted(results),
        in_callee(args, results, env, inner),
    ensures
        bound_clause(c, args, results).tag == c.tag,
        bound_clause(c, args, results).bound matches Some(b) ==> holds(b, env) == holds(
            c.term,
            inner,
        ),
        match bound_clause(c, args, results).bound {
            Some(b) => bound_clause(c, args, results).violation matches Some(v) && holds(v, env)
                == !holds(c.term, inner),
            None => bound_clause(c, args, results).violation is None,
        },
{
    let t = c.term;
    let m = binding_map(t, args, results);
    if let Some(b) = bound_term(t, args, results) {
        let d = t.vars().dom();
        lemma_vars_list(t, Map::empty());
        assert forall|n: Seq<char>| m.contains_key(n) implies (#[trigger] m[n]).well_sorted() && binding(
            n,
            args,
            results,
        ) == Some(m[n]) by {
            assert(t.vars().contains_key(n));
        }
        assert forall|n: Seq<char>, s: Sort| d.contains(n) implies #[trigger] inner(n, s) == (
        if m.contains_key(n) {
            value(m[n], env)
        } else {
            env(n, s)
        }) by {
            assert(t.vars().contains_key(n));
            let v = choose|v: IfaceVar| #[trigger] iface_name(v) == n;
            match v {
                IfaceVar::Param(i) => {
                    param_binds_argument(i, args, results);
                },
                IfaceVar::Result(i) => {
                    param_binds_argument(i, args, results);
                },
            }
        }
        substituting_is_evaluating(t, m, d, env, inner);
        assert(value(b, env) == value(t, inner));
        assert(mk_not(b) is Some);
    }
}

// ---- What callees guarantee ----

/// Whether a caller may rely on a guarantee: it is annotated, or all of the callee's clauses
/// were inferred.
pub open spec fn trusted(s: SummaryV, c: ClauseV) -> bool {
    c.provenance == Provenance::Annotated || s.provenance == Provenance::Inferred
}

/// Whether guarantee `j` of what instruction `i` calls is kept: it holds of the arguments and
/// the results where the call is reached.
pub open spec fn kept_at(f: &Function, e: EncodedV, t: TableV, i: int, j: int, env: Env) -> bool {
    let s = f.sites()[i];
    match f.op_at(s) {
        Op::Call { dst, callee: Callee::Static(c), args } => {
            let sum = t.summary(c);
            let b = bound_clause(
                sum.ensures_[j],
                values_at(e, args@),
                results_of(f, e, dst),
            ).bound;
            0 <= j < sum.ensures_.len() && trusted(sum, sum.ensures_[j]) && (e.guard(s.0 as int) matches Some(
                g,
            ) && holds(g, env)) && b is Some ==> holds(b.unwrap(), env)
        },
        _ => true,
    }
}

proof fn lemma_under_guard(g: Option<TermV>, t: Option<TermV>, env: Env)
    requires
        g matches Some(x) ==> x.sort() == Sort::Bool,
        t matches Some(x) ==> x.sort() == Sort::Bool,
    ensures
        match under_guard(g, t) {
            Some(u) => holds(u, env) == (holds(g.unwrap(), env) ==> holds(t.unwrap(), env)),
            None => g is None || t is None,
        },
{
    if let (Some(x), Some(y)) = (g, t) {
        reveal_with_fuel(value, 2);
        let nx = mk_not(x).unwrap();
        let v = seq![nx, y];
        or_is_some(v, env);
        assert(v[0] == nx && v[1] == y);
        assert(holds(nx, env) == !holds(x, env));
        if holds(TermV::Or(v), env) {
            let i = choose|i: int| 0 <= i < v.len() && holds(#[trigger] v[i], env);
            assert(i == 0 || i == 1);
        }
        if holds(y, env) {
            assert(holds(v[1], env));
        }
        if !holds(x, env) {
            assert(holds(v[0], env));
        }
    }
}

/// Whether guarantee `j` is kept, of these arguments and results.
spec fn fact_kept(
    s: SummaryV,
    g: Option<TermV>,
    args: Seq<Option<TermV>>,
    results: Seq<Option<TermV>>,
    j: int,
    env: Env,
) -> bool {
    let b = bound_clause(s.ensures_[j], args, results).bound;
    trusted(s, s.ensures_[j]) && (g matches Some(x) && holds(x, env)) && b is Some ==> holds(
        b.unwrap(),
        env,
    )
}

proof fn lemma_call_facts(
    s: SummaryV,
    g: Option<TermV>,
    args: Seq<Option<TermV>>,
    results: Seq<Option<TermV>>,
    n: int,
    env: Env,
)
    requires
        0 <= n <= s.ensures_.len(),
        g matches Some(x) ==> x.sort() == Sort::Bool,
    ensures
        all_hold(call_facts(s, g, args, results, n), env) == forall|j: int|
            0 <= j < n ==> #[trigger] fact_kept(s, g, args, results, j, env),
    decreases n,
{
    if n > 0 {
        lemma_call_facts(s, g, args, results, n - 1, env);
        let before = call_facts(s, g, args, results, n - 1);
        let b = bound_clause(s.ensures_[n - 1], args, results).bound;
        assert(bound_all(s.ensures_, args, results)[n - 1].bound == b);
        let u = under_guard(g, b);
        lemma_under_guard(g, b, env);
        lemma_all_hold_append(before, opt_seq(u), env);
        if let Some(x) = u {
            assert(opt_seq(u)[0] == x);
            assert(all_hold(opt_seq(u), env) == holds(x, env));
        }
        if forall|j: int| 0 <= j < n ==> #[trigger] fact_kept(s, g, args, results, j, env) {
            assert(fact_kept(s, g, args, results, n - 1, env));
        }
        if all_hold(call_facts(s, g, args, results, n), env) {
            assert forall|j: int| 0 <= j < n implies #[trigger] fact_kept(
                s,
                g,
                args,
                results,
                j,
                env,
            ) by {
                if j < n - 1 {
                    assert(fact_kept(s, g, args, results, j, env));
                }
            }
        }
    }
}

/// With the guarantees of callees, an encoding allows what it allowed before and under which
/// every guarantee that may be relied on is kept by every call by name that is reached.
pub proof fn calls_keep_their_guarantees(f: &Function, e: EncodedV, t: TableV, k: int, env: Env)
    requires
        0 <= k <= f.sites().len(),
        forall|b: int| 0 <= b < e.guards.len() ==> (#[trigger] e.guards[b]).sort() == Sort::Bool,
    ensures
        all_hold(with_ensures(f, e, t, k).asserts, env) <==> all_hold(e.asserts, env) && forall|
            i: int,
            j: int,
        |
            0 <= i < k && 0 <= j ==> #[trigger] kept_at(f, e, t, i, j, env),
        with_ensures(f, e, t, k).guards == e.guards,
        with_ensures(f, e, t, k).values == e.values,
    decreases k,
{
    if k > 0 {
        calls_keep_their_guarantees(f, e, t, k - 1, env);
        let before = with_ensures(f, e, t, k - 1);
        let s = f.sites()[k - 1];
        match f.op_at(s) {
            Op::Call { dst, callee: Callee::Static(c), args } => {
                let sum = t.summary(c);
                let g = before.guard(s.0 as int);
                let a = values_at(before, args@);
                let r = results_of(f, before, dst);
                assert(a =~= values_at(e, args@));
                lemma_results_alike(f, before, e, dst);
                let n = sum.ensures_.len() as int;
                lemma_call_facts(sum, g, a, r, n, env);
                lemma_all_hold_append(before.asserts, call_facts(sum, g, a, r, n), env);
                assert forall|j: int| 0 <= j < n implies #[trigger] fact_kept(
                    sum,
                    g,
                    a,
                    r,
                    j,
                    env,
                ) == kept_at(f, e, t, k - 1, j, env) by {}
                if all_hold(with_ensures(f, e, t, k).asserts, env) {
                    assert forall|i: int, j: int| 0 <= i < k && 0 <= j implies #[trigger] kept_at(
                        f,
                        e,
                        t,
                        i,
                        j,
                        env,
                    ) by {
                        if i < k - 1 {
                            assert(kept_at(f, e, t, i, j, env));
                        } else if j < n {
                            assert(fact_kept(sum, g, a, r, j, env));
                        }
                    }
                }
                if forall|i: int, j: int|
                    0 <= i < k && 0 <= j ==> #[trigger] kept_at(f, e, t, i, j, env) {
                    assert forall|j: int| 0 <= j < n implies #[trigger] fact_kept(
                        sum,
                        g,
                        a,
                        r,
                        j,
                        env,
                    ) by {
                        assert(kept_at(f, e, t, k - 1, j, env));
                    }
                }
            },
            _ => {
                if all_hold(with_ensures(f, e, t, k).asserts, env) {
                    assert forall|i: int, j: int| 0 <= i < k && 0 <= j implies #[trigger] kept_at(
                        f,
                        e,
                        t,
                        i,
                        j,
                        env,
                    ) by {
                        if i < k - 1 {
                            assert(kept_at(f, e, t, i, j, env));
                        }
                    }
                }
            },
        }
    }
}

proof fn lemma_results_alike(f: &Function, a: EncodedV, b: EncodedV, dst: Option<ValueId>)
    requires
        a.values == b.values,
    ensures
        results_of(f, a, dst) == results_of(f, b, dst),
{
    if let Some(d) = dst {
        lemma_results_upto_alike(f, a, b, d, f.sites().len() as int);
    }
}

proof fn lemma_results_upto_alike(f: &Function, a: EncodedV, b: EncodedV, d: ValueId, k: int)
    requires
        a.values == b.values,
    ensures
        results_upto(f, a, d, k) == results_upto(f, b, d, k),
    decreases k,
{
    if k > 0 {
        lemma_results_upto_alike(f, a, b, d, k - 1);
    }
}

// ---- Queries about two functions ----

/// A query about two things asks whether both are the case.
pub proof fn conjoining_asks_for_both(a: QueryV, b: QueryV, env: Env)
    ensures
        the_case(conjoined(a, b), env) <==> the_case(a, env) && the_case(b, env),
{
    lemma_all_hold_append(a.asserts, b.asserts, env);
}

/// Whether `inner` gives each constant of `cs` the value that the prefixed name has in `env`.
pub open spec fn under_prefix(
    cs: Seq<(Seq<char>, Sort)>,
    prefix: Seq<char>,
    env: Env,
    inner: Env,
) -> bool {
    forall|i: int, s: Sort|
        0 <= i < cs.len() ==> #[trigger] inner(cs[i].0, s) == env(prefix + cs[i].0, cs[i].1)
}

proof fn lemma_prefix_map(cs: Seq<(Seq<char>, Sort)>, prefix: Seq<char>, n: int, x: Seq<char>)
    requires
        0 <= n <= cs.len(),
        forall|i: int, j: int| 0 <= i < j < cs.len() ==> (#[trigger] cs[i]).0 != (#[trigger] cs[j]).0,
    ensures
        prefix_map(cs, prefix, n).contains_key(x) == exists|i: int| 0 <= i < n && (#[trigger] cs[i]).0 == x,
        forall|i: int|
            0 <= i < n ==> prefix_map(cs, prefix, n)[(#[trigger] cs[i]).0] == TermV::Var(
                prefix + cs[i].0,
                cs[i].1,
            ),
    decreases n,
{
    if n > 0 {
        lemma_prefix_map(cs, prefix, n - 1, x);
        if exists|i: int| 0 <= i < n && (#[trigger] cs[i]).0 == x {
            let i = choose|i: int| 0 <= i < n && (#[trigger] cs[i]).0 == x;
            if i < n - 1 {
                assert(cs[i].0 == x);
            }
        }
        if cs[n - 1].0 == x {
            assert(prefix_map(cs, prefix, n).contains_key(x));
        }
    }
}

/// A query with every constant renamed by a prefix asks the same of the renamed constants.
pub proof fn renaming_asks_the_same(q: QueryV, prefix: Seq<char>, env: Env, inner: Env)
    requires
        prefixed_query(q, prefix) is Some,
        forall|i: int, j: int|
            0 <= i < j < q.consts.len() ==> (#[trigger] q.consts[i]).0 != (#[trigger] q.consts[j]).0,
        forall|i: int|
            0 <= i < q.asserts.len() ==> (#[trigger] q.asserts[i]).well_sorted() && over(
                q.asserts[i],
                q.consts,
            ),
        under_prefix(q.consts, prefix, env, inner),
    ensures
        the_case(prefixed_query(q, prefix).unwrap(), env) <==> the_case(q, inner),
{
    let n = q.consts.len() as int;
    let m = prefix_map(q.consts, prefix, n);
    let r = prefixed_query(q, prefix).unwrap();
    let d = Set::new(|x: Seq<char>| exists|i: int| 0 <= i < n && (#[trigger] q.consts[i]).0 == x);
    assert forall|x: Seq<char>| m.contains_key(x) implies (#[trigger] m[x]).well_sorted() by {
        lemma_prefix_map(q.consts, prefix, n, x);
        let i = choose|i: int| 0 <= i < n && (#[trigger] q.consts[i]).0 == x;
        assert(m[q.consts[i].0] == TermV::Var(prefix + q.consts[i].0, q.consts[i].1));
    }
    assert(agrees(m, d, env, inner)) by {
        assert forall|x: Seq<char>, s: Sort| d.contains(x) implies #[trigger] inner(x, s) == (
        if m.contains_key(x) {
            value(m[x], env)
        } else {
            env(x, s)
        }) by {
            lemma_prefix_map(q.consts, prefix, n, x);
            let i = choose|i: int| 0 <= i < n && (#[trigger] q.consts[i]).0 == x;
            assert(m[q.consts[i].0] == TermV::Var(prefix + q.consts[i].0, q.consts[i].1));
            assert(inner(q.consts[i].0, s) == env(prefix + q.consts[i].0, q.consts[i].1));
        }
    }
    assert forall|i: int| 0 <= i < q.asserts.len() implies value(#[trigger] q.asserts[i], inner)
        == value(r.asserts[i], env) by {
        lemma_over_names(q.asserts[i], q.consts, d);
        substituting_is_evaluating(q.asserts[i], m, d, env, inner);
    }
    lemma_same_parts(r.asserts, q.asserts, env, inner);
}

proof fn lemma_over_names(t: TermV, cs: Seq<(Seq<char>, Sort)>, d: Set<Seq<char>>)
    requires
        over(t, cs),
        forall|i: int| 0 <= i < cs.len() ==> d.contains((#[trigger] cs[i]).0),
    ensures
        names_in(t, d),
    decreases t,
{
    match t {
        TermV::Var(n, s) => {
            let i = choose|i: int| 0 <= i < cs.len() && cs[i] == (n, s);
            assert(d.contains(cs[i].0));
        },
        TermV::BoolLit(_) | TermV::PtrNil | TermV::BvLit(_, _) => {},
        TermV::Eq(x, y) | TermV::BvBin(_, x, y) | TermV::BvCmp(_, x, y) | TermV::SeqVal(x, y) => {
            lemma_over_names(*x, cs, d);
            lemma_over_names(*y, cs, d);
        },
        TermV::Not(x) | TermV::PtrIsNil(x) | TermV::SeqLen(x) | TermV::SeqCap(x) => {
            lemma_over_names(*x, cs, d);
        },
        TermV::And(v) | TermV::Or(v) => {
            assert forall|i: int| 0 <= i < v.len() implies names_in(#[trigger] v[i], d) by {
                lemma_over_names(v[i], cs, d);
            }
        },
        TermV::Ite(c, x, y) => {
            lemma_over_names(*c, cs, d);
            lemma_over_names(*x, cs, d);
            lemma_over_names(*y, cs, d);
        },
    }
}

} // verus!
