//! What the bounds checker reports and requires: every fault of what is known well enough is
//! asked about, and every fault that is a matter of the parameters may become a requirement.

use vstd::prelude::*;
use crate::asking::lemma_extra;
use crate::blocking::{lemma_in_both, lemma_in_opt};
use crate::bounds::{
    all_expressible, bounds_at, bounds_candidates, bounds_encoding, bounds_obligations, bounds_upto,
    convert_at, convert_upto, divrem_at, divrem_upto, expressible_at, fault_sites, makes_slice,
    site_candidate, site_candidates, site_obligation, site_obligations, slice_maker, Fault,
    FaultSiteV, EXPRESSIBLE_MAX_DEPTH,
};
use crate::checker::{CandidateV, ObligationV};
use crate::encode::{opt_seq, EncodedV};
use crate::executions::{constants_fit, modelled_values_are_those_of_the_function};
use crate::ir::{FuncId, Function, MakeKind, Op, Program, Site, ValueId};
use crate::nilness::{reached, the_case};
use crate::ranges::{
    asks_about, every_fault_is_asked_about, faulty, looks_for, only_faults_are_asked_about, typed,
};
use crate::shared::{clause_terms, over_params};
use crate::summary::{Provenance, TableV};
use crate::term::{Sort, TermV};
use crate::types::array_len_of;
use crate::values::{all_hold, env_fits, fits, holds, Env, Value};

verus! {

/// Whether the operation reads `v` for what can go wrong with it.
pub open spec fn takes(op: Op, v: ValueId) -> bool {
    match op {
        Op::IndexAddr { base, index, .. } => v == base || v == index,
        Op::Index { base, index, .. } => v == base || v == index,
        Op::Slice { base, low, high, max, .. } => v == base || low == Some(v) || high == Some(v)
            || max == Some(v),
        Op::BinOp { lhs, rhs, .. } => v == lhs || v == rhs,
        Op::Convert { src, .. } => v == src,
        _ => false,
    }
}

/// Whether all that a site is about is read by its operation.
spec fn about_operands(f: &Function, x: FaultSiteV) -> bool {
    forall|i: int| 0 <= i < x.values.len() ==> takes(f.op_at(x.site), #[trigger] x.values[i])
}

spec fn all_about_operands(f: &Function, xs: Seq<FaultSiteV>) -> bool {
    forall|j: int| 0 <= j < xs.len() ==> #[trigger] about_operands(f, xs[j])
}

proof fn lemma_all_more(f: &Function, a: Seq<FaultSiteV>, b: Seq<FaultSiteV>)
    requires
        all_about_operands(f, a),
        all_about_operands(f, b),
    ensures
        all_about_operands(f, a + b),
{
    assert forall|j: int| 0 <= j < (a + b).len() implies #[trigger] about_operands(f, (a + b)[j]) by {
        if j < a.len() {
            assert(about_operands(f, a[j]));
        } else {
            assert(about_operands(f, b[j - a.len()]));
        }
    }
}

proof fn lemma_at(p: &Program, f: &Function, e: EncodedV, s: Site)
    ensures
        all_about_operands(f, opt_seq(bounds_at(p, f, e, s))),
        all_about_operands(f, divrem_at(p, f, e, s)),
        all_about_operands(f, opt_seq(convert_at(p, f, e, s))),
{
    if let Some(x) = bounds_at(p, f, e, s) {
        if let Op::Slice { base, low, high, max, .. } = f.op_at(s) {
            let vs = x.values;
            assert forall|i: int| 0 <= i < vs.len() implies takes(f.op_at(s), #[trigger] vs[i]) by {
                let a = seq![base];
                lemma_in_both(a, opt_seq(low), vs[i]);
                lemma_in_both(a + opt_seq(low), opt_seq(high), vs[i]);
                lemma_in_both(a + opt_seq(low) + opt_seq(high), opt_seq(max), vs[i]);
                lemma_in_opt(low, vs[i]);
                lemma_in_opt(high, vs[i]);
                lemma_in_opt(max, vs[i]);
                assert(vs.contains(vs[i]));
            }
        }
        assert(about_operands(f, x));
    }
    let ds = divrem_at(p, f, e, s);
    assert forall|j: int| 0 <= j < ds.len() implies #[trigger] about_operands(f, ds[j]) by {}
}

proof fn lemma_upto(p: &Program, f: &Function, e: EncodedV, k: int)
    requires
        0 <= k <= f.sites().len(),
    ensures
        all_about_operands(f, bounds_upto(p, f, e, k)),
        all_about_operands(f, divrem_upto(p, f, e, k)),
        all_about_operands(f, convert_upto(p, f, e, k)),
    decreases k,
{
    if k > 0 {
        lemma_upto(p, f, e, k - 1);
        let s = f.sites()[k - 1];
        lemma_at(p, f, e, s);
        lemma_all_more(f, bounds_upto(p, f, e, k - 1), opt_seq(bounds_at(p, f, e, s)));
        lemma_all_more(f, divrem_upto(p, f, e, k - 1), divrem_at(p, f, e, s));
        lemma_all_more(f, convert_upto(p, f, e, k - 1), opt_seq(convert_at(p, f, e, s)));
    }
}

proof fn lemma_sites(p: &Program, f: &Function, e: EncodedV)
    ensures
        all_about_operands(f, fault_sites(p, f, e)),
{
    let n = f.sites().len() as int;
    lemma_upto(p, f, e, n);
    lemma_all_more(f, bounds_upto(p, f, e, n), divrem_upto(p, f, e, n));
    lemma_all_more(
        f,
        bounds_upto(p, f, e, n) + divrem_upto(p, f, e, n),
        convert_upto(p, f, e, n),
    );
}

/// Whether `v` is a parameter or a constant.
pub open spec fn given(f: &Function, v: ValueId) -> bool {
    f.kind_of(v) is Param || f.kind_of(v) is Const
}

/// Whether instruction `k` makes `v` as a slice of a length and a capacity that are given.
pub open spec fn makes_given(f: &Function, v: ValueId, k: int) -> bool {
    0 <= k < f.sites().len() && match f.op_at(f.sites()[k]) {
        Op::Make { dst, kind, args } => dst == v && kind == MakeKind::Slice && forall|i: int|
            0 <= i < args@.len() ==> given(f, #[trigger] args@[i]),
        _ => false,
    }
}

/// Whether `v` is known well enough to report: it is given, or the first instruction that makes
/// it makes a slice of a given length and capacity.
pub open spec fn known_well(f: &Function, v: ValueId) -> bool {
    given(f, v) || exists|k: int| #[trigger]
        makes_given(f, v, k) && forall|j: int|
            0 <= j < k ==> match f.op_at(#[trigger] f.sites()[j]) {
                Op::Make { dst, .. } => dst != v,
                Op::Slice { dst, .. } => dst != v,
                _ => true,
            }
}

proof fn lemma_maker(f: &Function, v: ValueId, from: int, k: int)
    requires
        0 <= from <= k,
        makes_given(f, v, k),
        forall|j: int|
            0 <= j < k ==> match f.op_at(#[trigger] f.sites()[j]) {
                Op::Make { dst, .. } => dst != v,
                Op::Slice { dst, .. } => dst != v,
                _ => true,
            },
    ensures
        slice_maker(f, v, from) == Some(f.sites()[k]),
    decreases k - from,
{
    if from < k {
        assert(!makes_slice(f.op_at(f.sites()[from]), v));
        lemma_maker(f, v, from + 1, k);
    }
}

proof fn lemma_known(p: &Program, f: &Function, v: ValueId)
    requires
        known_well(f, v),
    ensures
        expressible_at(p, f, v, EXPRESSIBLE_MAX_DEPTH as nat),
{
    if !given(f, v) {
        let k = choose|k: int| #[trigger]
            makes_given(f, v, k) && forall|j: int|
                0 <= j < k ==> match f.op_at(#[trigger] f.sites()[j]) {
                    Op::Make { dst, .. } => dst != v,
                    Op::Slice { dst, .. } => dst != v,
                    _ => true,
                };
        lemma_maker(f, v, 0, k);
    }
}

/// Whether an execution that keeps the function's own requirements commits `fault` at `s`.
pub open spec fn commits(
    p: &Program,
    func: &Function,
    e: EncodedV,
    pre: Seq<TermV>,
    s: Site,
    fault: Fault,
    env: Env,
) -> bool {
    &&& all_hold(e.asserts, env)
    &&& reached(e, s.0 as int, env)
    &&& all_hold(pre, env)
    &&& faulty(p, func, e, func.op_at(s), fault, env)
}

/// The tag of a fault.
pub open spec fn fault_tag(fault: Fault) -> Seq<char> {
    match fault {
        Fault::Bounds => "bounds"@,
        Fault::DivZero => "div-zero"@,
        Fault::Overflow => "overflow"@,
    }
}

/// What is said of a fault.
pub open spec fn fault_words(fault: Fault) -> Seq<char> {
    match fault {
        Fault::Bounds => "index/slice out of bounds in "@,
        Fault::DivZero => "division by zero in "@,
        Fault::Overflow => "integer overflow in "@,
    }
}

proof fn lemma_words(fault: Fault)
    ensures
        fault.described() + " in "@ == fault_words(fault),
{
    reveal_strlit(" in ");
    reveal_strlit("index/slice out of bounds");
    reveal_strlit("index/slice out of bounds in ");
    reveal_strlit("division by zero");
    reveal_strlit("division by zero in ");
    reveal_strlit("integer overflow");
    reveal_strlit("integer overflow in ");
    assert(fault.described() + " in "@ =~= fault_words(fault));
}

proof fn lemma_pick(p: &Program, f: &Function, e: EncodedV, i: int, fault: Fault) -> (j: int)
    requires
        typed(p, f, e),
        0 <= i < f.sites().len(),
        looks_for(p, f, e, f.op_at(f.sites()[i]), fault),
    ensures
        0 <= j < fault_sites(p, f, e).len(),
        fault_sites(p, f, e)[j].site == f.sites()[i],
        fault_sites(p, f, e)[j].fault == fault,
        fault_sites(p, f, e)[j].violation.sort() == Sort::Bool,
        forall|env: Env| #[trigger]
            env_fits(env) ==> holds(fault_sites(p, f, e)[j].violation, env) == faulty(
                p,
                f,
                e,
                f.op_at(f.sites()[i]),
                fault,
                env,
            ),
{
    let xs = fault_sites(p, f, e);
    let some: Env = |n: Seq<char>, s: Sort| zero_of(s);
    assert(env_fits(some)) by {
        assert forall|n: Seq<char>, s: Sort| fits(#[trigger] some(n, s), s) by {
            if let Sort::BitVec(w) = s {
                vstd::arithmetic::power2::lemma_pow2_pos(w as nat);
            }
            vstd::arithmetic::power2::lemma_pow2_pos(64);
        }
    }
    every_fault_is_asked_about(p, f, e, i, fault, some);
    let j = choose|j: int| asks_about(p, f, e, xs, f.sites()[i], fault, some, j);
    assert forall|env: Env| #[trigger] env_fits(env) implies holds(xs[j].violation, env) == faulty(
        p,
        f,
        e,
        f.op_at(f.sites()[i]),
        fault,
        env,
    ) by {
        only_faults_are_asked_about(p, f, e, env);
        assert(xs[j] == xs[j]);
    }
    lemma_bool(p, f, e, j);
    j
}

spec fn zero_of(s: Sort) -> Value {
    match s {
        Sort::Bool => Value::Bool(true),
        Sort::BitVec(w) => Value::Bits(0),
        Sort::Ptr => Value::Ptr(0),
        Sort::GoSeq => Value::Slice(0, 0),
    }
}

spec fn all_bool_sites(xs: Seq<FaultSiteV>) -> bool {
    forall|j: int| 0 <= j < xs.len() ==> (#[trigger] xs[j]).violation.sort() == Sort::Bool
}

proof fn lemma_bool_upto(p: &Program, f: &Function, e: EncodedV, k: int)
    requires
        0 <= k <= f.sites().len(),
    ensures
        all_bool_sites(bounds_upto(p, f, e, k)),
        all_bool_sites(divrem_upto(p, f, e, k)),
        all_bool_sites(convert_upto(p, f, e, k)),
    decreases k,
{
    if k > 0 {
        lemma_bool_upto(p, f, e, k - 1);
    }
}

proof fn lemma_bool(p: &Program, f: &Function, e: EncodedV, j: int)
    requires
        0 <= j < fault_sites(p, f, e).len(),
    ensures
        fault_sites(p, f, e)[j].violation.sort() == Sort::Bool,
{
    let n = f.sites().len() as int;
    lemma_bool_upto(p, f, e, n);
    let b = bounds_upto(p, f, e, n);
    let d = divrem_upto(p, f, e, n);
    let c = convert_upto(p, f, e, n);
    let xs = fault_sites(p, f, e);
    if j < b.len() {
        assert(xs[j] == b[j]);
    } else if j < b.len() + d.len() {
        assert(xs[j] == d[j - b.len()]);
    } else {
        assert(xs[j] == c[j - b.len() - d.len()]);
    }
}

proof fn lemma_obligations_has(
    p: &Program,
    f: FuncId,
    func: &Function,
    e: EncodedV,
    pre: Seq<TermV>,
    xs: Seq<FaultSiteV>,
    n: int,
    j: int,
    o: ObligationV,
)
    requires
        0 <= j < n <= xs.len(),
        site_obligation(p, f, func, e, pre, xs[j]) == Some(o),
    ensures
        site_obligations(p, f, func, e, pre, xs, n).contains(o),
    decreases n,
{
    let before = site_obligations(p, f, func, e, pre, xs, n - 1);
    let last = site_obligation(p, f, func, e, pre, xs[n - 1]);
    lemma_in_both(before, opt_seq(last), o);
    lemma_in_opt(last, o);
    if j < n - 1 {
        lemma_obligations_has(p, f, func, e, pre, xs, n - 1, j, o);
    }
}

/// Every operation that may commit a fault on what is known well enough is asked about: whether
/// an execution that keeps the function's own requirements commits it there.
pub proof fn faults_are_reported(
    p: &Program,
    f: FuncId,
    t: TableV,
    func: &Function,
    e: EncodedV,
    i: int,
    fault: Fault,
)
    requires
        bounds_encoding(p, f) == Some((*func, e)),
        constants_fit(p, func),
        0 <= i < func.sites().len(),
        looks_for(p, func, e, func.op_at(func.sites()[i]), fault),
        forall|v: ValueId| #[trigger] takes(func.op_at(func.sites()[i]), v) ==> known_well(func, v),
    ensures
        exists|o: ObligationV| #[trigger]
            bounds_obligations(p, f, t).contains(o) && o.tag == fault_tag(fault) && o.pos
                == func.pos_at(func.sites()[i]) && o.message == fault_words(fault) + p.name_of(f)
                && forall|env: Env| #[trigger]
                env_fits(env) ==> the_case(o.query, env) == commits(
                    p,
                    func,
                    e,
                    clause_terms(t.summary(f).requires_),
                    func.sites()[i],
                    fault,
                    env,
                ),
{
    modelled_values_are_those_of_the_function(p, func, ValueId(0));
    let xs = fault_sites(p, func, e);
    let s = func.sites()[i];
    let j = lemma_pick(p, func, e, i, fault);
    let pre = clause_terms(t.summary(f).requires_);
    lemma_sites(p, func, e);
    assert(about_operands(func, xs[j]));
    assert(all_expressible(p, func, xs[j].values)) by {
        assert forall|m: int| 0 <= m < xs[j].values.len() implies expressible_at(
            p,
            func,
            #[trigger] xs[j].values[m],
            EXPRESSIBLE_MAX_DEPTH as nat,
        ) by {
            assert(takes(func.op_at(s), xs[j].values[m]));
            lemma_known(p, func, xs[j].values[m]);
        }
    }
    let o = site_obligation(p, f, func, e, pre, xs[j]).unwrap();
    lemma_obligations_has(p, f, func, e, pre, xs, xs.len() as int, j, o);
    let a = site_obligations(p, f, func, e, pre, xs, xs.len() as int);
    let m = choose|m: int| 0 <= m < a.len() && a[m] == o;
    let all = bounds_obligations(p, f, t);
    assert(all[m] == o);
    assert(all.contains(o));
    lemma_words(fault);
    assert forall|env: Env| #[trigger] env_fits(env) implies the_case(o.query, env) == commits(
        p,
        func,
        e,
        pre,
        s,
        fault,
        env,
    ) by {
        lemma_extra(e, pre, s, xs[j].violation, env);
    }
}

proof fn lemma_candidates_has(
    e: EncodedV,
    xs: Seq<FaultSiteV>,
    n: int,
    j: int,
    c: CandidateV,
)
    requires
        0 <= j < n <= xs.len(),
        site_candidate(e, xs[j]) == Some(c),
    ensures
        site_candidates(e, xs, n).contains(c),
    decreases n,
{
    let before = site_candidates(e, xs, n - 1);
    let last = site_candidate(e, xs[n - 1]);
    lemma_in_both(before, opt_seq(last), c);
    lemma_in_opt(last, c);
    if j < n - 1 {
        lemma_candidates_has(e, xs, n - 1, j, c);
    }
}

/// Whether `v` is the question of a fault at `s`.
pub open spec fn is_question(
    p: &Program,
    func: &Function,
    e: EncodedV,
    s: Site,
    fault: Fault,
    v: TermV,
) -> bool {
    forall|env: Env| #[trigger]
        env_fits(env) ==> holds(v, env) == faulty(p, func, e, func.op_at(s), fault, env)
}

/// Every operation that may commit a fault has one question about it, and where that is a
/// matter of the parameters, the function may come to require that the fault does not happen:
/// it does if an execution can commit it.
pub proof fn faults_may_become_requirements(
    p: &Program,
    f: FuncId,
    t: TableV,
    func: &Function,
    e: EncodedV,
    i: int,
    fault: Fault,
)
    requires
        bounds_encoding(p, f) == Some((*func, e)),
        constants_fit(p, func),
        0 <= i < func.sites().len(),
        looks_for(p, func, e, func.op_at(func.sites()[i]), fault),
    ensures
        exists|v: TermV| #[trigger]
            is_question(p, func, e, func.sites()[i], fault, v) && (over_params(v) ==> exists|
                c: CandidateV,
            | #[trigger]
                bounds_candidates(p, f, t).contains(c) && c.clause.tag == fault_tag(fault)
                    && c.clause.provenance == Provenance::Inferred && forall|env: Env| #[trigger]
                    env_fits(env) ==> (holds(c.clause.term, env) == !faulty(
                        p,
                        func,
                        e,
                        func.op_at(func.sites()[i]),
                        fault,
                        env,
                    ) && the_case(c.query, env) == commits(
                        p,
                        func,
                        e,
                        Seq::empty(),
                        func.sites()[i],
                        fault,
                        env,
                    ))),
{
    modelled_values_are_those_of_the_function(p, func, ValueId(0));
    let xs = fault_sites(p, func, e);
    let s = func.sites()[i];
    let j = lemma_pick(p, func, e, i, fault);
    let v = xs[j].violation;
    assert(is_question(p, func, e, s, fault, v));
    if over_params(v) {
        let c = site_candidate(e, xs[j]).unwrap();
        lemma_candidates_has(e, xs, xs.len() as int, j, c);
        let a = site_candidates(e, xs, xs.len() as int);
        let m = choose|m: int| 0 <= m < a.len() && a[m] == c;
        let all = bounds_candidates(p, f, t);
        assert(all[m] == c);
        assert(all.contains(c));
        assert forall|env: Env| #[trigger] env_fits(env) implies (holds(c.clause.term, env) == !faulty(
            p,
            func,
            e,
            func.op_at(s),
            fault,
            env,
        ) && the_case(c.query, env) == commits(p, func, e, Seq::empty(), s, fault, env)) by {
            assert(Seq::<TermV>::empty().push(v) =~= seq![v]);
            lemma_extra(e, Seq::empty(), s, v, env);
        }
    }
}

// ---- Only what is known ----

/// Whether `fault` of the operation is a matter of `v`.
pub open spec fn depends_on(op: Op, fault: Fault, v: ValueId) -> bool {
    match op {
        Op::BinOp { lhs, rhs, .. } => v == rhs || (v == lhs && fault == Fault::Overflow),
        _ => takes(op, v),
    }
}

/// Whether a site lists all that its fault is a matter of.
spec fn complete(f: &Function, x: FaultSiteV) -> bool {
    forall|v: ValueId| #[trigger] depends_on(f.op_at(x.site), x.fault, v) ==> x.values.contains(v)
}

spec fn all_complete(f: &Function, xs: Seq<FaultSiteV>) -> bool {
    forall|j: int| 0 <= j < xs.len() ==> #[trigger] complete(f, xs[j])
}

proof fn lemma_complete_more(f: &Function, a: Seq<FaultSiteV>, b: Seq<FaultSiteV>)
    requires
        all_complete(f, a),
        all_complete(f, b),
    ensures
        all_complete(f, a + b),
{
    assert forall|j: int| 0 <= j < (a + b).len() implies #[trigger] complete(f, (a + b)[j]) by {
        if j < a.len() {
            assert(complete(f, a[j]));
        } else {
            assert(complete(f, b[j - a.len()]));
        }
    }
}

proof fn lemma_complete_at(p: &Program, f: &Function, e: EncodedV, s: Site)
    ensures
        all_complete(f, opt_seq(bounds_at(p, f, e, s))),
        all_complete(f, divrem_at(p, f, e, s)),
        all_complete(f, opt_seq(convert_at(p, f, e, s))),
{
    if let Some(x) = bounds_at(p, f, e, s) {
        let vs = x.values;
        assert forall|v: ValueId| #[trigger] depends_on(f.op_at(s), x.fault, v) implies vs.contains(v) by {
            match f.op_at(s) {
                Op::Slice { base, low, high, max, .. } => {
                    let a = seq![base];
                    assert(a[0] == base);
                    lemma_in_both(a, opt_seq(low), v);
                    lemma_in_both(a + opt_seq(low), opt_seq(high), v);
                    lemma_in_both(a + opt_seq(low) + opt_seq(high), opt_seq(max), v);
                    lemma_in_opt(low, v);
                    lemma_in_opt(high, v);
                    lemma_in_opt(max, v);
                },
                _ => {
                    assert(vs[0] == v || vs[1] == v);
                },
            }
        }
        assert(complete(f, x));
    }
    let ds = divrem_at(p, f, e, s);
    assert forall|j: int| 0 <= j < ds.len() implies #[trigger] complete(f, ds[j]) by {
        assert forall|v: ValueId| #[trigger]
            depends_on(f.op_at(s), ds[j].fault, v) implies ds[j].values.contains(v) by {
            assert(ds[j].values[0] == v || ds[j].values[1] == v);
        }
    }
    if let Some(x) = convert_at(p, f, e, s) {
        assert forall|v: ValueId| #[trigger]
            depends_on(f.op_at(s), x.fault, v) implies x.values.contains(v) by {
            assert(x.values[0] == v);
        }
        assert(complete(f, x));
    }
}

proof fn lemma_complete_upto(p: &Program, f: &Function, e: EncodedV, k: int)
    requires
        0 <= k <= f.sites().len(),
    ensures
        all_complete(f, bounds_upto(p, f, e, k)),
        all_complete(f, divrem_upto(p, f, e, k)),
        all_complete(f, convert_upto(p, f, e, k)),
    decreases k,
{
    if k > 0 {
        lemma_complete_upto(p, f, e, k - 1);
        let s = f.sites()[k - 1];
        lemma_complete_at(p, f, e, s);
        lemma_complete_more(f, bounds_upto(p, f, e, k - 1), opt_seq(bounds_at(p, f, e, s)));
        lemma_complete_more(f, divrem_upto(p, f, e, k - 1), divrem_at(p, f, e, s));
        lemma_complete_more(f, convert_upto(p, f, e, k - 1), opt_seq(convert_at(p, f, e, s)));
    }
}

proof fn lemma_complete_sites(p: &Program, f: &Function, e: EncodedV)
    ensures
        all_complete(f, fault_sites(p, f, e)),
{
    let n = f.sites().len() as int;
    lemma_complete_upto(p, f, e, n);
    lemma_complete_more(f, bounds_upto(p, f, e, n), divrem_upto(p, f, e, n));
    lemma_complete_more(
        f,
        bounds_upto(p, f, e, n) + divrem_upto(p, f, e, n),
        convert_upto(p, f, e, n),
    );
}

/// Whether an operand is given, or left out.
pub open spec fn given_or_none(f: &Function, v: Option<ValueId>) -> bool {
    v matches Some(x) ==> given(f, x)
}

/// Whether an instruction makes `v` out of what is given or in `known`: as a slice of a given
/// length and capacity, where value 0 stands for one that is left out, or by cutting an array
/// or something known at given bounds.
pub open spec fn builds(p: &Program, f: &Function, op: Op, known: Set<ValueId>, v: ValueId) -> bool {
    match op {
        Op::Make { dst, kind, args } => dst == v && kind == MakeKind::Slice && forall|i: int|
            0 <= i < args@.len() ==> given(f, #[trigger] args@[i]) || args@[i] == ValueId(0),
        Op::Slice { dst, base, low, high, max } => dst == v && (array_len_of(
            &p.types,
            f.type_of(base),
        ) is Some || known.contains(base)) && given_or_none(f, low) && given_or_none(f, high)
            && given_or_none(f, max),
        _ => false,
    }
}

/// Whether `known` has all parameters and constants, and all that is built of them.
pub open spec fn has_all_built(p: &Program, f: &Function, known: Set<ValueId>) -> bool {
    &&& forall|v: ValueId| #[trigger] given(f, v) ==> known.contains(v)
    &&& forall|k: int, v: ValueId|
        0 <= k < f.sites().len() && #[trigger] builds(p, f, f.op_at(f.sites()[k]), known, v)
            ==> known.contains(v)
}

proof fn lemma_maker_place(f: &Function, v: ValueId, from: int) -> (k: int)
    requires
        0 <= from,
        slice_maker(f, v, from) is Some,
    ensures
        from <= k < f.sites().len(),
        slice_maker(f, v, from) == Some(f.sites()[k]),
        makes_slice(f.op_at(f.sites()[k]), v),
    decreases f.sites().len() - from,
{
    if makes_slice(f.op_at(f.sites()[from]), v) {
        from
    } else {
        lemma_maker_place(f, v, from + 1)
    }
}

proof fn lemma_built(p: &Program, f: &Function, known: Set<ValueId>, v: ValueId, depth: nat)
    requires
        has_all_built(p, f, known),
        expressible_at(p, f, v, depth),
    ensures
        known.contains(v),
    decreases depth,
{
    if !given(f, v) {
        let k = lemma_maker_place(f, v, 0);
        let op = f.op_at(f.sites()[k]);
        if let Op::Slice { dst, base, low, high, max } = op {
            if array_len_of(&p.types, f.type_of(base)) is None {
                lemma_built(p, f, known, base, (depth - 1) as nat);
            }
        }
        assert(builds(p, f, op, known, v));
    }
}

/// What is known well enough to report is given or built of what is given: it is in every set
/// that has all of that. And cutting what is known one step less deep gives what is known.
pub proof fn only_what_is_built_of_the_given_is_known(
    p: &Program,
    f: &Function,
    known: Set<ValueId>,
    v: ValueId,
    depth: nat,
)
    requires
        has_all_built(p, f, known),
    ensures
        expressible_at(p, f, v, depth) ==> known.contains(v),
        slice_maker(f, v, 0) matches Some(s) ==> (f.op_at(s) matches Op::Slice {
            base,
            low,
            high,
            max,
            ..
        } ==> (expressible_at(p, f, base, depth) && given_or_none(f, low) && given_or_none(f, high)
            && given_or_none(f, max) ==> expressible_at(p, f, v, depth + 1))),
{
    if expressible_at(p, f, v, depth) {
        lemma_built(p, f, known, v, depth);
    }
}

/// Whether `o` asks about a fault at instruction `i` that is a matter of `known` alone.
pub open spec fn asks_of_fault(
    p: &Program,
    f: FuncId,
    t: TableV,
    func: &Function,
    e: EncodedV,
    known: Set<ValueId>,
    i: int,
    fault: Fault,
    o: ObligationV,
) -> bool {
    &&& 0 <= i < func.sites().len()
    &&& looks_for(p, func, e, func.op_at(func.sites()[i]), fault)
    &&& forall|v: ValueId| #[trigger]
        depends_on(func.op_at(func.sites()[i]), fault, v) ==> known.contains(v)
    &&& o.tag == fault_tag(fault)
    &&& o.pos == func.pos_at(func.sites()[i])
    &&& o.message == fault_words(fault) + p.name_of(f)
    &&& forall|env: Env| #[trigger]
        env_fits(env) ==> the_case(o.query, env) == commits(
            p,
            func,
            e,
            clause_terms(t.summary(f).requires_),
            func.sites()[i],
            fault,
            env,
        )
}

proof fn lemma_obligation_site(
    p: &Program,
    f: FuncId,
    func: &Function,
    e: EncodedV,
    pre: Seq<TermV>,
    xs: Seq<FaultSiteV>,
    n: int,
    o: ObligationV,
) -> (j: int)
    requires
        0 <= n <= xs.len(),
        site_obligations(p, f, func, e, pre, xs, n).contains(o),
    ensures
        0 <= j < n,
        site_obligation(p, f, func, e, pre, xs[j]) == Some(o),
    decreases n,
{
    let all = site_obligations(p, f, func, e, pre, xs, n);
    if n <= 0 {
        assert(all.len() == 0);
        0
    } else {
        let before = site_obligations(p, f, func, e, pre, xs, n - 1);
        let last = site_obligation(p, f, func, e, pre, xs[n - 1]);
        lemma_in_both(before, opt_seq(last), o);
        lemma_in_opt(last, o);
        if before.contains(o) {
            lemma_obligation_site(p, f, func, e, pre, xs, n - 1, o)
        } else {
            n - 1
        }
    }
}

/// Of its own operations the checker asks only about faults that are a matter of parameters,
/// constants and what is built of them.
pub proof fn only_known_faults_are_reported(
    p: &Program,
    f: FuncId,
    t: TableV,
    func: &Function,
    e: EncodedV,
    known: Set<ValueId>,
    o: ObligationV,
)
    requires
        bounds_encoding(p, f) == Some((*func, e)),
        constants_fit(p, func),
        has_all_built(p, func, known),
        site_obligations(
            p,
            f,
            func,
            e,
            clause_terms(t.summary(f).requires_),
            fault_sites(p, func, e),
            fault_sites(p, func, e).len() as int,
        ).contains(o),
    ensures
        exists|i: int, fault: Fault| #[trigger]
            asks_of_fault(p, f, t, func, e, known, i, fault, o),
{
    modelled_values_are_those_of_the_function(p, func, ValueId(0));
    let xs = fault_sites(p, func, e);
    let pre = clause_terms(t.summary(f).requires_);
    let j = lemma_obligation_site(p, f, func, e, pre, xs, xs.len() as int, o);
    let x = xs[j];
    lemma_complete_sites(p, func, e);
    assert(complete(func, x));
    lemma_words(x.fault);
    let some: Env = |n: Seq<char>, s: Sort| zero_of(s);
    assert(env_fits(some)) by {
        assert forall|n: Seq<char>, s: Sort| fits(#[trigger] some(n, s), s) by {
            if let Sort::BitVec(w) = s {
                vstd::arithmetic::power2::lemma_pow2_pos(w as nat);
            }
            vstd::arithmetic::power2::lemma_pow2_pos(64);
        }
    }
    only_faults_are_asked_about(p, func, e, some);
    assert(func.sites().contains(xs[j].site));
    let i = choose|i: int| 0 <= i < func.sites().len() && func.sites()[i] == x.site;
    assert forall|v: ValueId| #[trigger]
        depends_on(func.op_at(x.site), x.fault, v) implies known.contains(v) by {
        let m = choose|m: int| 0 <= m < x.values.len() && x.values[m] == v;
        assert(expressible_at(p, func, x.values[m], EXPRESSIBLE_MAX_DEPTH as nat));
        lemma_built(p, func, known, v, EXPRESSIBLE_MAX_DEPTH as nat);
    }
    assert forall|env: Env| #[trigger] env_fits(env) implies the_case(o.query, env) == commits(
        p,
        func,
        e,
        pre,
        x.site,
        x.fault,
        env,
    ) by {
        only_faults_are_asked_about(p, func, e, env);
        assert(xs[j] == x);
        lemma_extra(e, pre, x.site, x.violation, env);
    }
    assert(asks_of_fault(p, f, t, func, e, known, i, x.fault, o));
}

} // verus!
