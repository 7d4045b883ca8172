//! What is inferred about results is true: where the answers are, a guarantee holds of what
//! every execution returns, and a result that no execution returns as nil is guaranteed.

use vstd::prelude::*;
use crate::arith::{modelled, value_of};
use crate::checker::{pushed, verdict_at};
use crate::encode::EncodedV;
use crate::ir::{
    ConstVal, FuncId, Function, Program, Site, TypeId, TypeKind, TypeTable, ValueId, ValueKind,
};
use crate::nil::{
    all_never_nil, correlated, correlation, guarantees, is_error, is_ptr_result, never_nil,
    nil_encoding, nil_ensures, nil_ensures_asked, nil_results, nil_return, nil_returns,
    nonnil_clause, with_correlations,
};
use crate::nilness::{queries_ask_for_executions, reached, the_case};
use crate::query::{QueryV, SatResult};
use crate::rets::{arity_fits, has_returns, results_of_sig, ret_sites, returned};
use crate::summary::{iface_name, ClauseV, IfaceVar, TableV};
use crate::term::{Sort, TermV};
use crate::types::sort_of_type;
use crate::values::{all_hold, holds, or_is_some, value, Env, Value};

verus! {

/// Whether a query that is answered as unsatisfiable is never the case.
pub open spec fn answers_right(qs: Seq<QueryV>, verdicts: Seq<SatResult>) -> bool {
    forall|k: int, env: Env|
        0 <= k < qs.len() && verdict_at(verdicts, k) == SatResult::Unsat ==> !#[trigger] the_case(
            qs[k],
            env,
        )
}

/// Whether an execution comes to the return at `s`.
pub open spec fn comes_to(e: EncodedV, s: Site, env: Env) -> bool {
    all_hold(e.asserts, env) && reached(e, s.0 as int, env)
}

/// Whether the value is written as the constant nil.
pub open spec fn written_nil(f: &Function, v: ValueId) -> bool {
    f.kind_of(v) == ValueKind::Const(ConstVal::Nil)
}

/// Whether `inner` is how a caller sees the return at `s`: each modelled result has its value,
/// and a result is nil only where its value is nil or written so.
pub open spec fn seen_by_caller(
    f: &Function,
    e: EncodedV,
    s: Site,
    env: Env,
    inner: Env,
) -> bool {
    let vs = returned(f, s);
    forall|i: u32|
        i < vs.len() ==> {
            let r = #[trigger] inner(iface_name(IfaceVar::Result(i)), Sort::Ptr);
            if modelled(e, vs[i as int], Sort::Ptr) {
                r == value_of(e, vs[i as int], env)
            } else {
                r == Value::Ptr(0) ==> written_nil(f, vs[i as int])
            }
        }
}

proof fn lemma_returns_prefix(f: &Function, e: EncodedV, i: int, j: int, n: int)
    requires
        0 <= j < n,
        nil_return(f, e, ret_sites(f)[j], i) is Some,
    ensures
        nil_returns(f, e, i, j).len() < nil_returns(f, e, i, n).len(),
        nil_returns(f, e, i, n)[nil_returns(f, e, i, j).len() as int] == nil_return(
            f,
            e,
            ret_sites(f)[j],
            i,
        ).unwrap(),
    decreases n,
{
    if j < n - 1 {
        lemma_returns_prefix(f, e, i, j, n - 1);
    }
}

proof fn lemma_results_prefix(
    p: &Program,
    f: &Function,
    e: EncodedV,
    rs: Seq<TypeId>,
    i: int,
    j: int,
    n: int,
)
    requires
        0 <= i < n <= rs.len(),
        0 <= j < ret_sites(f).len(),
        is_ptr_result(p, rs, i),
        nil_return(f, e, ret_sites(f)[j], i) is Some,
    ensures
        ({
            let k = nil_results(p, f, e, rs, i).len() + nil_returns(f, e, i, j).len();
            let all = nil_results(p, f, e, rs, n);
            &&& k < all.len()
            &&& all[k as int] == nil_return(f, e, ret_sites(f)[j], i).unwrap()
        }),
    decreases n,
{
    if i < n - 1 {
        lemma_results_prefix(p, f, e, rs, i, j, n - 1);
    } else {
        lemma_returns_prefix(f, e, i, j, ret_sites(f).len() as int);
    }
}

/// What is asked about result `i` of the return at `s` is whether an execution returns nil.
pub proof fn returns_are_asked_whether_they_are_nil(
    f: &Function,
    e: EncodedV,
    s: Site,
    i: int,
    env: Env,
)
    requires
        0 <= i < returned(f, s).len(),
    ensures
        match nil_return(f, e, s, i) {
            Some(q) => e.value(returned(f, s)[i]) is Some && the_case(q, env) == (comes_to(
                e,
                s,
                env,
            ) && value_of(e, returned(f, s)[i], env) == Value::Ptr(0)),
            None => !modelled(e, returned(f, s)[i], Sort::Ptr),
        },
{
    if let Some(q) = nil_return(f, e, s, i) {
        let n = TermV::PtrIsNil(Box::new(e.value(returned(f, s)[i]).unwrap()));
        queries_ask_for_executions(e, s.0 as int, seq![n], env);
        assert(seq![n][0] == n);
        assert(all_hold(seq![n], env) == holds(n, env));
    }
}

proof fn lemma_never(
    p: &Program,
    f: &Function,
    e: EncodedV,
    rs: Seq<TypeId>,
    verdicts: Seq<SatResult>,
    i: int,
    j: int,
    env: Env,
)
    requires
        0 <= i < rs.len(),
        0 <= j < ret_sites(f).len(),
        returned(f, ret_sites(f)[j]).len() == rs.len(),
        is_ptr_result(p, rs, i),
        answers_right(nil_results(p, f, e, rs, rs.len() as int), verdicts),
        never_nil(p, f, e, rs, verdicts, i, j),
        comes_to(e, ret_sites(f)[j], env),
    ensures
        e.value(returned(f, ret_sites(f)[j])[i]) is Some,
        value_of(e, returned(f, ret_sites(f)[j])[i], env) != Value::Ptr(0),
{
    let s = ret_sites(f)[j];
    lemma_results_prefix(p, f, e, rs, i, j, rs.len() as int);
    returns_are_asked_whether_they_are_nil(f, e, s, i, env);
    let k = nil_results(p, f, e, rs, i).len() + nil_returns(f, e, i, j).len();
    let all = nil_results(p, f, e, rs, rs.len() as int);
    assert(!the_case(all[k as int], env));
}

/// Whether `c` holds however a caller sees the returns.
spec fn keeps(f: &Function, e: EncodedV, c: ClauseV) -> bool {
    forall|j: int, env: Env, inner: Env|
        0 <= j < ret_sites(f).len() && comes_to(e, ret_sites(f)[j], env)
            && #[trigger] seen_by_caller(f, e, ret_sites(f)[j], env, inner) ==> holds(c.term, inner)
}

spec fn all_keep(f: &Function, e: EncodedV, cs: Seq<ClauseV>) -> bool {
    forall|k: int| 0 <= k < cs.len() ==> keeps(f, e, #[trigger] cs[k])
}

proof fn lemma_pushed(f: &Function, e: EncodedV, cs: Seq<ClauseV>, c: ClauseV)
    requires
        all_keep(f, e, cs),
        keeps(f, e, c),
    ensures
        all_keep(f, e, pushed(cs, c)),
{
}

proof fn lemma_nonnil(
    p: &Program,
    f: &Function,
    e: EncodedV,
    rs: Seq<TypeId>,
    verdicts: Seq<SatResult>,
    i: int,
)
    requires
        0 <= i < rs.len() <= u32::MAX,
        arity_fits(f, rs.len()),
        is_ptr_result(p, rs, i),
        answers_right(nil_results(p, f, e, rs, rs.len() as int), verdicts),
        all_never_nil(p, f, e, rs, verdicts, i),
        forall|v: ValueId| (#[trigger] e.value(v)) matches Some(t) ==> t.well_sorted(),
    ensures
        keeps(f, e, nonnil_clause(i as u32)),
{
    let c = nonnil_clause(i as u32);
    assert forall|j: int, env: Env, inner: Env|
        0 <= j < ret_sites(f).len() && comes_to(e, ret_sites(f)[j], env)
            && #[trigger] seen_by_caller(f, e, ret_sites(f)[j], env, inner) implies holds(
        c.term,
        inner,
    ) by {
        reveal_with_fuel(value, 3);
        let s = ret_sites(f)[j];
        assert(never_nil(p, f, e, rs, verdicts, i, j));
        lemma_never(p, f, e, rs, verdicts, i, j, env);
        let r = inner(iface_name(IfaceVar::Result(i as u32)), Sort::Ptr);
        assert(r == value_of(e, returned(f, s)[i], env));
    }
}

proof fn lemma_correlation(
    p: &Program,
    f: &Function,
    e: EncodedV,
    rs: Seq<TypeId>,
    verdicts: Seq<SatResult>,
    x: int,
    i: int,
)
    requires
        0 <= i < rs.len() <= u32::MAX,
        0 <= x < rs.len(),
        arity_fits(f, rs.len()),
        is_ptr_result(p, rs, i),
        answers_right(nil_results(p, f, e, rs, rs.len() as int), verdicts),
        correlated(p, f, e, rs, verdicts, x, i),
        forall|v: ValueId| (#[trigger] e.value(v)) matches Some(t) ==> t.well_sorted(),
        forall|j: int|
            0 <= j < ret_sites(f).len() ==> !modelled(
                e,
                returned(f, #[trigger] ret_sites(f)[j])[x],
                Sort::Ptr,
            ),
    ensures
        keeps(f, e, correlation(x as u32, i as u32)),
{
    let c = correlation(x as u32, i as u32);
    assert forall|j: int, env: Env, inner: Env|
        0 <= j < ret_sites(f).len() && comes_to(e, ret_sites(f)[j], env)
            && #[trigger] seen_by_caller(f, e, ret_sites(f)[j], env, inner) implies holds(
        c.term,
        inner,
    ) by {
        reveal_with_fuel(value, 3);
        let s = ret_sites(f)[j];
        let parts = c.term->Or_0;
        or_is_some(parts, inner);
        let rx = inner(iface_name(IfaceVar::Result(x as u32)), Sort::Ptr);
        let ri = inner(iface_name(IfaceVar::Result(i as u32)), Sort::Ptr);
        assert(holds(parts[0], inner) == (rx != Value::Ptr(0)));
        assert(holds(parts[1], inner) == (ri != Value::Ptr(0)));
        if rx == Value::Ptr(0) {
            assert(written_nil(f, returned(f, s)[x]));
            assert(never_nil(p, f, e, rs, verdicts, i, j));
            lemma_never(p, f, e, rs, verdicts, i, j, env);
            assert(ri == value_of(e, returned(f, s)[i], env));
        }
    }
}

/// Whether a type is `error`: an interface of that name.
pub open spec fn is_error_type(types: &TypeTable, t: TypeId) -> bool {
    types.kind_of(t) matches TypeKind::Named { name, underlying } && name@ == "error"@
        && types.kind_of(underlying) is Interface
}

/// Whether error results are not modelled as pointers: they are interfaces.
pub open spec fn errors_unmodelled(p: &Program, f: &Function, e: EncodedV, rs: Seq<TypeId>) -> bool {
    forall|x: int, j: int|
        0 <= x < rs.len() && 0 <= j < ret_sites(f).len() && is_error_type(&p.types, rs[x])
            ==> !modelled(e, returned(f, #[trigger] ret_sites(f)[j])[#[trigger] idx(x)], Sort::Ptr)
}

/// A position.
pub open spec fn idx(x: int) -> int {
    x
}

proof fn lemma_with_correlations(
    p: &Program,
    f: &Function,
    e: EncodedV,
    rs: Seq<TypeId>,
    verdicts: Seq<SatResult>,
    cs: Seq<ClauseV>,
    i: int,
    x: int,
)
    requires
        0 <= i < rs.len() <= u32::MAX,
        0 <= x <= rs.len(),
        arity_fits(f, rs.len()),
        is_ptr_result(p, rs, i),
        answers_right(nil_results(p, f, e, rs, rs.len() as int), verdicts),
        forall|v: ValueId| (#[trigger] e.value(v)) matches Some(t) ==> t.well_sorted(),
        errors_unmodelled(p, f, e, rs),
        all_keep(f, e, cs),
    ensures
        all_keep(f, e, with_correlations(p, f, e, rs, verdicts, cs, i, x)),
    decreases x,
{
    if x > 0 {
        lemma_with_correlations(p, f, e, rs, verdicts, cs, i, x - 1);
        let before = with_correlations(p, f, e, rs, verdicts, cs, i, x - 1);
        if is_error(&p.types, rs[x - 1]) && x - 1 != i && correlated(
            p,
            f,
            e,
            rs,
            verdicts,
            x - 1,
            i,
        ) {
            assert forall|j: int| 0 <= j < ret_sites(f).len() implies !modelled(
                e,
                returned(f, #[trigger] ret_sites(f)[j])[x - 1],
                Sort::Ptr,
            ) by {
                assert(idx(x - 1) == x - 1);
            }
            lemma_correlation(p, f, e, rs, verdicts, x - 1, i);
            lemma_pushed(f, e, before, correlation((x - 1) as u32, i as u32));
        }
    }
}

proof fn lemma_guarantees(
    p: &Program,
    f: &Function,
    e: EncodedV,
    rs: Seq<TypeId>,
    verdicts: Seq<SatResult>,
    n: int,
)
    requires
        0 <= n <= rs.len() <= u32::MAX,
        arity_fits(f, rs.len()),
        answers_right(nil_results(p, f, e, rs, rs.len() as int), verdicts),
        forall|v: ValueId| (#[trigger] e.value(v)) matches Some(t) ==> t.well_sorted(),
        errors_unmodelled(p, f, e, rs),
    ensures
        all_keep(f, e, guarantees(p, f, e, rs, verdicts, n)),
    decreases n,
{
    if n > 0 {
        lemma_guarantees(p, f, e, rs, verdicts, n - 1);
        let before = guarantees(p, f, e, rs, verdicts, n - 1);
        if is_ptr_result(p, rs, n - 1) {
            if all_never_nil(p, f, e, rs, verdicts, n - 1) {
                lemma_nonnil(p, f, e, rs, verdicts, n - 1);
                lemma_pushed(f, e, before, nonnil_clause((n - 1) as u32));
            } else {
                lemma_with_correlations(
                    p,
                    f,
                    e,
                    rs,
                    verdicts,
                    before,
                    n - 1,
                    rs.len() as int,
                );
            }
        }
    }
}

/// What is inferred about results is true: if no query is answered as unsatisfiable that is
/// ever the case, every guarantee holds of what every execution returns, as a caller sees it.
pub proof fn inferred_guarantees_hold(
    p: &Program,
    f: FuncId,
    t: TableV,
    func: &Function,
    e: EncodedV,
    rs: Seq<TypeId>,
    verdicts: Seq<SatResult>,
    k: int,
    j: int,
    env: Env,
    inner: Env,
)
    requires
        nil_encoding(p, f, t) == Some((*func, e)),
        has_returns(p, func),
        results_of_sig(p, func) == Some(rs),
        rs.len() <= u32::MAX,
        forall|v: ValueId| (#[trigger] e.value(v)) matches Some(t) ==> t.well_sorted(),
        errors_unmodelled(p, func, e, rs),
        answers_right(nil_ensures_asked(p, f, t), verdicts),
        0 <= k < nil_ensures(p, f, t, verdicts).len(),
        0 <= j < ret_sites(func).len(),
        comes_to(e, ret_sites(func)[j], env),
        seen_by_caller(func, e, ret_sites(func)[j], env, inner),
    ensures
        holds(nil_ensures(p, f, t, verdicts)[k].term, inner),
{
    lemma_guarantees(p, func, e, rs, verdicts, rs.len() as int);
    assert(keeps(func, e, nil_ensures(p, f, t, verdicts)[k]));
}

/// Whether a clause says that result `i` is not nil, and no more.
pub open spec fn says_not_nil(c: ClauseV, i: u32) -> bool {
    forall|inner: Env| #[trigger]
        holds(c.term, inner) == (inner(iface_name(IfaceVar::Result(i)), Sort::Ptr) != Value::Ptr(0))
}

proof fn lemma_pushed_has(cs: Seq<ClauseV>, c: ClauseV, d: ClauseV)
    ensures
        pushed(cs, c).contains(c),
        cs.contains(d) ==> pushed(cs, c).contains(d),
{
    if !cs.contains(c) {
        assert(pushed(cs, c)[cs.len() as int] == c);
    }
    if cs.contains(d) {
        let i = choose|i: int| 0 <= i < cs.len() && cs[i] == d;
        assert(pushed(cs, c)[i] == d);
    }
}

proof fn lemma_correlations_keep(
    p: &Program,
    f: &Function,
    e: EncodedV,
    rs: Seq<TypeId>,
    verdicts: Seq<SatResult>,
    cs: Seq<ClauseV>,
    i: int,
    x: int,
    d: ClauseV,
)
    requires
        cs.contains(d),
    ensures
        with_correlations(p, f, e, rs, verdicts, cs, i, x).contains(d),
    decreases x,
{
    if x > 0 {
        lemma_correlations_keep(p, f, e, rs, verdicts, cs, i, x - 1, d);
        lemma_pushed_has(
            with_correlations(p, f, e, rs, verdicts, cs, i, x - 1),
            correlation((x - 1) as u32, i as u32),
            d,
        );
    }
}

proof fn lemma_made(
    p: &Program,
    f: &Function,
    e: EncodedV,
    rs: Seq<TypeId>,
    verdicts: Seq<SatResult>,
    n: int,
    i: int,
)
    requires
        0 <= i < n <= rs.len(),
        is_ptr_result(p, rs, i),
        all_never_nil(p, f, e, rs, verdicts, i),
    ensures
        guarantees(p, f, e, rs, verdicts, n).contains(nonnil_clause(i as u32)),
    decreases n,
{
    let c = nonnil_clause(i as u32);
    let before = guarantees(p, f, e, rs, verdicts, n - 1);
    if i < n - 1 {
        lemma_made(p, f, e, rs, verdicts, n - 1, i);
        lemma_pushed_has(before, nonnil_clause((n - 1) as u32), c);
        lemma_correlations_keep(p, f, e, rs, verdicts, before, n - 1, rs.len() as int, c);
    } else {
        lemma_pushed_has(before, c, c);
    }
}

/// A pointer result that every return has modelled, and that is answered as never nil at every
/// return, is guaranteed not to be nil.
pub proof fn results_that_are_never_nil_are_guaranteed(
    p: &Program,
    f: FuncId,
    t: TableV,
    func: &Function,
    e: EncodedV,
    rs: Seq<TypeId>,
    verdicts: Seq<SatResult>,
    i: int,
)
    requires
        nil_encoding(p, f, t) == Some((*func, e)),
        has_returns(p, func),
        results_of_sig(p, func) == Some(rs),
        0 <= i < rs.len() <= u32::MAX,
        sort_of_type(&p.types, rs[i]) == Some(Sort::Ptr),
        forall|j: int|
            0 <= j < ret_sites(func).len() ==> modelled(
                e,
                returned(func, #[trigger] ret_sites(func)[j])[i],
                Sort::Ptr,
            ),
        forall|k: int|
            0 <= k < nil_ensures_asked(p, f, t).len() ==> #[trigger] verdict_at(verdicts, k)
                == SatResult::Unsat,
    ensures
        exists|c: ClauseV| #[trigger]
            nil_ensures(p, f, t, verdicts).contains(c) && c.tag == "nil-deref"@ && says_not_nil(
                c,
                i as u32,
            ),
{
    assert forall|j: int| 0 <= j < ret_sites(func).len() implies #[trigger] never_nil(
        p,
        func,
        e,
        rs,
        verdicts,
        i,
        j,
    ) by {
        assert(modelled(e, returned(func, ret_sites(func)[j])[i], Sort::Ptr));
        lemma_results_prefix(p, func, e, rs, i, j, rs.len() as int);
        let k = nil_results(p, func, e, rs, i).len() + nil_returns(func, e, i, j).len();
        assert(verdict_at(verdicts, k as int) == SatResult::Unsat);
    }
    lemma_made(p, func, e, rs, verdicts, rs.len() as int, i);
    let c = nonnil_clause(i as u32);
    assert(nil_ensures(p, f, t, verdicts).contains(c));
    assert forall|inner: Env| #[trigger] holds(c.term, inner) == (inner(
        iface_name(IfaceVar::Result(i as u32)),
        Sort::Ptr,
    ) != Value::Ptr(0)) by {
        reveal_with_fuel(value, 4);
    }
}

} // verus!
