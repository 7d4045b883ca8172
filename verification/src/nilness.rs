//! What the nil checker looks for is what stops a Go program: an operation that reads or writes
//! through a nil pointer.

use vstd::prelude::*;
use crate::arith::{modelled, value_of};
use crate::checker::{CandidateV, ObligationV};
use crate::encode::{opt_seq, EncodedV};
use crate::ir::{FuncId, Function, Op, Program, Site, ValueId};
use crate::nil::{
    const_nil, deref_candidate, deref_candidates, deref_obligation, deref_obligations,
    judged_callee, nil_candidates, nil_encoding, nil_obligations,
};
use crate::query::QueryV;
use crate::shared::{
    assumed, calls_obligations, clause_terms, deref_at, deref_facts, derefs, derefs_upto,
    over_params, runs_before, strictly_before, survived, Deref,
};
use crate::summary::TableV;
use crate::term::{Sort, TermV};
use crate::values::{all_hold, holds, or_is_some, value, Env, Value};

verus! {

/// Whether `v` has a pointer type.
pub open spec fn is_pointer(p: &Program, f: &Function, v: ValueId) -> bool {
    p.types.kind_of(f.type_of(v)) is Pointer
}

/// Whether instruction `s` reads or writes through `v`.
pub open spec fn goes_through(f: &Function, s: Site, v: ValueId) -> bool {
    ||| f.op_at(s) matches Op::Load { addr, .. } && addr == v
    ||| f.op_at(s) matches Op::Store { addr, .. } && addr == v
    ||| f.op_at(s) matches Op::FieldAddr { base, .. } && base == v
    ||| f.op_at(s) matches Op::Field { base, .. } && base == v
}

proof fn lemma_derefs_upto(p: &Program, f: &Function, k: int)
    requires
        k <= f.sites().len(),
    ensures
        forall|d: Deref| #[trigger]
            derefs_upto(p, f, k).contains(d) <==> exists|i: int|
                0 <= i < k && #[trigger] f.sites()[i] == (d.block, d.instr) && goes_through(
                    f,
                    (d.block, d.instr),
                    d.subject,
                ) && is_pointer(p, f, d.subject),
    decreases k,
{
    if k > 0 {
        lemma_derefs_upto(p, f, k - 1);
        let b = derefs_upto(p, f, k - 1);
        let s = f.sites()[k - 1];
        let n = deref_at(p, f, s);
        let a = derefs_upto(p, f, k);
        assert forall|d: Deref| #[trigger] a.contains(d) <==> exists|i: int|
            0 <= i < k && #[trigger] f.sites()[i] == (d.block, d.instr) && goes_through(
                f,
                (d.block, d.instr),
                d.subject,
            ) && is_pointer(p, f, d.subject) by {
            if a.contains(d) {
                let j = choose|j: int| 0 <= j < a.len() && a[j] == d;
                if j < b.len() {
                    assert(b[j] == d);
                    assert(b.contains(d));
                } else {
                    assert(n == Some(d));
                    assert(f.sites()[k - 1] == (d.block, d.instr));
                }
            }
            if exists|i: int|
                0 <= i < k && #[trigger] f.sites()[i] == (d.block, d.instr) && goes_through(
                    f,
                    (d.block, d.instr),
                    d.subject,
                ) && is_pointer(p, f, d.subject) {
                let i = choose|i: int|
                    0 <= i < k && #[trigger] f.sites()[i] == (d.block, d.instr) && goes_through(
                        f,
                        (d.block, d.instr),
                        d.subject,
                    ) && is_pointer(p, f, d.subject);
                if i < k - 1 {
                    assert(b.contains(d));
                    let j = choose|j: int| 0 <= j < b.len() && b[j] == d;
                    assert(a[j] == d);
                } else {
                    assert(n == Some(d));
                    assert(a[b.len() as int] == d);
                }
            }
        }
    } else {
        assert(derefs_upto(p, f, k).len() == 0);
    }
}

/// The dereferences of a function are its instructions that read or write through a value of
/// pointer type: every load, every store, every access to a field and to the address of one.
pub proof fn dereferences_are_reads_and_writes_through_pointers(p: &Program, f: &Function, d: Deref)
    ensures
        derefs(p, f).contains(d) == (f.sites().contains((d.block, d.instr)) && goes_through(
            f,
            (d.block, d.instr),
            d.subject,
        ) && is_pointer(p, f, d.subject)),
{
    lemma_derefs_upto(p, f, f.sites().len() as int);
    let s: Site = (d.block, d.instr);
    if derefs(p, f).contains(d) {
        let i = choose|i: int|
            0 <= i < f.sites().len() && #[trigger] f.sites()[i] == (d.block, d.instr)
                && goes_through(f, (d.block, d.instr), d.subject) && is_pointer(p, f, d.subject);
        assert(f.sites()[i] == s);
    }
    if f.sites().contains(s) && goes_through(f, s, d.subject) && is_pointer(p, f, d.subject) {
        let i = choose|i: int| 0 <= i < f.sites().len() && f.sites()[i] == s;
        assert(f.sites()[i] == (d.block, d.instr));
    }
}

// ---- Questions ----

/// Whether what a query asks is the case.
pub open spec fn the_case(q: QueryV, env: Env) -> bool {
    all_hold(q.asserts, env)
}

/// Whether block `b` is reached.
pub open spec fn reached(e: EncodedV, b: int, env: Env) -> bool {
    e.guard(b) matches Some(g) ==> holds(g, env)
}

/// A sequence holds if and only if its parts do.
pub proof fn lemma_all_hold_append(a: Seq<TermV>, b: Seq<TermV>, env: Env)
    ensures
        all_hold(a + b, env) == (all_hold(a, env) && all_hold(b, env)),
{
    let s = a + b;
    if all_hold(s, env) {
        assert forall|i: int| 0 <= i < a.len() implies holds(#[trigger] a[i], env) by {
            assert(holds(s[i], env));
        }
        assert forall|i: int| 0 <= i < b.len() implies holds(#[trigger] b[i], env) by {
            assert(holds(s[a.len() + i], env));
        }
    }
    if all_hold(a, env) && all_hold(b, env) {
        assert forall|i: int| 0 <= i < s.len() implies holds(#[trigger] s[i], env) by {
            if i < a.len() {
                assert(holds(a[i], env));
            } else {
                assert(holds(b[i - a.len()], env));
            }
        }
    }
}

/// A query about a block asks whether an execution that the encoding allows reaches the block
/// with all that is added true.
pub proof fn queries_ask_for_executions(e: EncodedV, block: int, extra: Seq<TermV>, env: Env)
    ensures
        the_case(e.reach(block, extra), env) == (all_hold(e.asserts, env) && reached(e, block, env)
            && all_hold(extra, env)),
{
    let g = opt_seq(e.guard(block));
    lemma_all_hold_append(e.asserts, g, env);
    lemma_all_hold_append(e.asserts + g, extra, env);
    if let Some(t) = e.guard(block) {
        assert(g[0] == t);
        assert(all_hold(g, env) == holds(t, env));
    }
}

/// Whether the dereference `d` went well, if it was reached: its subject was not nil.
pub open spec fn went_well(e: EncodedV, d: Deref, env: Env) -> bool {
    modelled(e, d.subject, Sort::Ptr) && (e.guard(d.block as int) matches Some(g) && holds(g, env))
        ==> value_of(e, d.subject, env) != Value::Ptr(0)
}

/// Whether the guards are boolean and the modelled values well sorted.
pub open spec fn proper(e: EncodedV) -> bool {
    &&& forall|b: int|
        0 <= b < e.guards.len() ==> (#[trigger] e.guards[b]).sort() == Sort::Bool
            && e.guards[b].well_sorted()
    &&& forall|v: ValueId| (#[trigger] e.value(v)) matches Some(t) ==> t.well_sorted()
}

proof fn lemma_survived(e: EncodedV, d: Deref, env: Env)
    requires
        proper(e),
    ensures
        match survived(e, d) {
            Some(t) => holds(t, env) == went_well(e, d, env),
            None => went_well(e, d, env),
        },
{
    reveal_with_fuel(value, 4);
    if let Some(s) = e.value(d.subject) {
        if s.sort() == Sort::Ptr {
            if let Some(g) = e.guard(d.block as int) {
                let t = survived(e, d).unwrap();
                let parts = t->Or_0;
                or_is_some(parts, env);
                assert(parts.len() == 2);
                assert(holds(parts[0], env) == !holds(g, env));
                assert(holds(parts[1], env) == (value(s, env) != Value::Ptr(0)));
            }
        }
    }
}

/// Whether all of the first `n` dereferences went well that come before instruction `instr` of
/// `block` on every execution that gets there.
pub open spec fn all_went_well(
    e: EncodedV,
    ds: Seq<Deref>,
    block: int,
    instr: int,
    n: int,
    env: Env,
) -> bool {
    forall|i: int|
        0 <= i < n && (((#[trigger] ds[i]).block == block && ds[i].instr < instr)
            || strictly_before(e.dag, ds[i].block as int, block)) ==> went_well(e, ds[i], env)
}

/// What earlier dereferences tell is that they went well.
pub proof fn lemma_facts(e: EncodedV, ds: Seq<Deref>, block: int, instr: int, n: int, env: Env)
    requires
        proper(e),
        n <= ds.len(),
    ensures
        all_hold(deref_facts(e, ds, block, instr, n), env) == all_went_well(
            e,
            ds,
            block,
            instr,
            n,
            env,
        ),
    decreases n,
{
    if n > 0 {
        lemma_facts(e, ds, block, instr, n - 1, env);
        let d = ds[n - 1];
        let before = deref_facts(e, ds, block, instr, n - 1);
        let t = survived(e, d);
        lemma_survived(e, d, env);
        lemma_all_hold_append(before, opt_seq(t), env);
        if let Some(x) = t {
            assert(opt_seq(t)[0] == x);
            assert(all_hold(opt_seq(t), env) == holds(x, env));
        }
        assert(runs_before(e.dag, d, block, instr) == ((d.block == block && d.instr < instr)
            || strictly_before(e.dag, d.block as int, block)));
        if all_went_well(e, ds, block, instr, n, env) {
            assert(all_went_well(e, ds, block, instr, n - 1, env));
        }
        if all_went_well(e, ds, block, instr, n - 1, env) && (!runs_before(e.dag, d, block, instr)
            || went_well(e, d, env)) {
            assert(all_went_well(e, ds, block, instr, n, env));
        }
    }
}

/// Whether an execution reaches `d` with its subject nil, where what is assumed of the
/// function holds and every dereference that comes before went well.
pub open spec fn derefs_nil(
    e: EncodedV,
    pre: Seq<TermV>,
    ds: Seq<Deref>,
    d: Deref,
    env: Env,
) -> bool {
    &&& all_hold(e.asserts, env)
    &&& reached(e, d.block as int, env)
    &&& all_hold(pre, env)
    &&& all_went_well(e, ds, d.block as int, d.instr as int, ds.len() as int, env)
    &&& value_of(e, d.subject, env) == Value::Ptr(0)
}

proof fn lemma_nil_query(e: EncodedV, pre: Seq<TermV>, ds: Seq<Deref>, d: Deref, env: Env)
    requires
        proper(e),
        modelled(e, d.subject, Sort::Ptr),
    ensures
        ({
            let n = TermV::PtrIsNil(Box::new(e.value(d.subject).unwrap()));
            let known = assumed(e, ds, d.block as int, d.instr as int);
            &&& the_case(e.reach(d.block as int, (pre + known).push(n)), env) == derefs_nil(
                e,
                pre,
                ds,
                d,
                env,
            )
            &&& holds(n, env) == (value_of(e, d.subject, env) == Value::Ptr(0))
        }),
{
    let n = TermV::PtrIsNil(Box::new(e.value(d.subject).unwrap()));
    let known = assumed(e, ds, d.block as int, d.instr as int);
    let extra = (pre + known).push(n);
    queries_ask_for_executions(e, d.block as int, extra, env);
    lemma_facts(e, ds, d.block as int, d.instr as int, ds.len() as int, env);
    lemma_all_hold_append(pre, known, env);
    lemma_all_hold_append(pre + known, seq![n], env);
    assert(extra =~= (pre + known) + seq![n]);
    assert(seq![n][0] == n);
    assert(all_hold(seq![n], env) == holds(n, env));
}

proof fn lemma_obligations_has(
    p: &Program,
    f: FuncId,
    func: &Function,
    e: EncodedV,
    t: TableV,
    pre: Seq<TermV>,
    ds: Seq<Deref>,
    n: int,
    i: int,
    o: ObligationV,
)
    requires
        0 <= i < n <= ds.len(),
        deref_obligation(p, f, func, e, t, pre, ds, ds[i]) == Some(o),
    ensures
        deref_obligations(p, f, func, e, t, pre, ds, n).contains(o),
    decreases n,
{
    let b = deref_obligations(p, f, func, e, t, pre, ds, n - 1);
    let a = deref_obligations(p, f, func, e, t, pre, ds, n);
    if i < n - 1 {
        lemma_obligations_has(p, f, func, e, t, pre, ds, n - 1, i, o);
        let j = choose|j: int| 0 <= j < b.len() && b[j] == o;
        assert(a[j] == o);
    } else {
        assert(a[b.len() as int] == o);
    }
}

/// Every dereference of a nil constant, of what is a matter of the parameters, or of a result
/// that its callee guarantees something about, is asked about at its place: whether the
/// subject can be nil there.
pub proof fn every_judged_dereference_is_asked_about(
    p: &Program,
    f: FuncId,
    t: TableV,
    func: &Function,
    e: EncodedV,
    d: Deref,
)
    requires
        nil_encoding(p, f, t) == Some((*func, e)),
        proper(e),
        func.sites().contains((d.block, d.instr)),
        goes_through(func, (d.block, d.instr), d.subject),
        is_pointer(p, func, d.subject),
        modelled(e, d.subject, Sort::Ptr),
        const_nil(func, d.subject) || over_params(e.value(d.subject).unwrap()) || judged_callee(
            func,
            t,
            d.subject,
        ) is Some,
    ensures
        exists|o: ObligationV| #[trigger]
            nil_obligations(p, f, t).contains(o) && o.pos == func.pos_at((d.block, d.instr))
                && forall|env: Env| #[trigger]
                the_case(o.query, env) == derefs_nil(
                    e,
                    clause_terms(t.summary(f).requires_),
                    derefs(p, func),
                    d,
                    env,
                ),
{
    dereferences_are_reads_and_writes_through_pointers(p, func, d);
    let ds = derefs(p, func);
    let i = choose|i: int| 0 <= i < ds.len() && ds[i] == d;
    let pre = clause_terms(t.summary(f).requires_);
    let o = deref_obligation(p, f, func, e, t, pre, ds, d).unwrap();
    lemma_obligations_has(p, f, func, e, t, pre, ds, ds.len() as int, i, o);
    let a = deref_obligations(p, f, func, e, t, pre, ds, ds.len() as int);
    let j = choose|j: int| 0 <= j < a.len() && a[j] == o;
    let all = nil_obligations(p, f, t);
    assert(all[j] == o);
    assert(all.contains(o));
    assert forall|env: Env| #[trigger] the_case(o.query, env) == derefs_nil(e, pre, ds, d, env) by {
        lemma_nil_query(e, pre, ds, d, env);
    }
}

proof fn lemma_candidates_has(
    e: EncodedV,
    ds: Seq<Deref>,
    n: int,
    i: int,
    c: CandidateV,
)
    requires
        0 <= i < n <= ds.len(),
        deref_candidate(e, ds, ds[i]) == Some(c),
    ensures
        deref_candidates(e, ds, n).contains(c),
    decreases n,
{
    let b = deref_candidates(e, ds, n - 1);
    let a = deref_candidates(e, ds, n);
    if i < n - 1 {
        lemma_candidates_has(e, ds, n - 1, i, c);
        let j = choose|j: int| 0 <= j < b.len() && b[j] == c;
        assert(a[j] == c);
    } else {
        assert(a[b.len() as int] == c);
    }
}

/// Every dereference of what is a matter of the parameters may make a requirement: that the
/// subject is not nil. It is made if an execution can reach the dereference with nil.
pub proof fn every_parameter_dereference_may_be_required(
    p: &Program,
    f: FuncId,
    t: TableV,
    func: &Function,
    e: EncodedV,
    d: Deref,
)
    requires
        nil_encoding(p, f, t) == Some((*func, e)),
        proper(e),
        func.sites().contains((d.block, d.instr)),
        goes_through(func, (d.block, d.instr), d.subject),
        is_pointer(p, func, d.subject),
        modelled(e, d.subject, Sort::Ptr),
        over_params(e.value(d.subject).unwrap()),
    ensures
        exists|c: CandidateV| #[trigger]
            nil_candidates(p, f, t).contains(c) && (forall|env: Env| #[trigger]
                holds(c.clause.term, env) == (value_of(e, d.subject, env) != Value::Ptr(0)))
                && forall|env: Env| #[trigger]
                the_case(c.query, env) == derefs_nil(e, Seq::empty(), derefs(p, func), d, env),
{
    dereferences_are_reads_and_writes_through_pointers(p, func, d);
    let ds = derefs(p, func);
    let i = choose|i: int| 0 <= i < ds.len() && ds[i] == d;
    let s = e.value(d.subject).unwrap();
    let n = TermV::PtrIsNil(Box::new(s));
    assert(n.vars() == s.vars());
    let c = deref_candidate(e, ds, d).unwrap();
    lemma_candidates_has(e, ds, ds.len() as int, i, c);
    let a = deref_candidates(e, ds, ds.len() as int);
    let j = choose|j: int| 0 <= j < a.len() && a[j] == c;
    let all = nil_candidates(p, f, t);
    assert(all[j] == c);
    assert(all.contains(c));
    let known = assumed(e, ds, d.block as int, d.instr as int);
    assert(Seq::<TermV>::empty() + known =~= known);
    assert forall|env: Env| #[trigger] the_case(c.query, env) == derefs_nil(
        e,
        Seq::empty(),
        ds,
        d,
        env,
    ) by {
        lemma_nil_query(e, Seq::empty(), ds, d, env);
    }
    assert forall|env: Env| #[trigger] holds(c.clause.term, env) == (value_of(e, d.subject, env)
        != Value::Ptr(0)) by {
        reveal_with_fuel(value, 3);
    }
}

/// Whether a dereference of `v` is judged: it is the constant nil, a matter of the parameters,
/// or a result that its callee guarantees something about.
pub open spec fn judged(func: &Function, e: EncodedV, t: TableV, v: ValueId) -> bool {
    e.value(v) matches Some(x) && (const_nil(func, v) || over_params(x) || judged_callee(
        func,
        t,
        v,
    ) is Some)
}

/// What is said of a dereference in `f`: whose result it is, where that is what makes it
/// judged.
pub open spec fn deref_words(
    p: &Program,
    f: FuncId,
    func: &Function,
    e: EncodedV,
    t: TableV,
    v: ValueId,
) -> Seq<char> {
    if const_nil(func, v) || over_params(e.value(v).unwrap()) {
        "nil dereference in "@ + p.name_of(f)
    } else {
        "possibly-nil result of "@ + p.name_of(judged_callee(func, t, v).unwrap())
            + " dereferenced in "@ + p.name_of(f)
    }
}

/// Whether `o` asks whether the dereference `d` is of nil.
pub open spec fn asks_of_deref(
    p: &Program,
    f: FuncId,
    func: &Function,
    e: EncodedV,
    t: TableV,
    d: Deref,
    o: ObligationV,
) -> bool {
    &&& derefs(p, func).contains(d)
    &&& judged(func, e, t, d.subject)
    &&& o.tag == "nil-deref"@
    &&& o.pos == func.pos_at((d.block, d.instr))
    &&& o.message == deref_words(p, f, func, e, t, d.subject)
    &&& forall|env: Env| #[trigger]
        the_case(o.query, env) == derefs_nil(
            e,
            clause_terms(t.summary(f).requires_),
            derefs(p, func),
            d,
            env,
        )
}

proof fn lemma_obligations_only(
    p: &Program,
    f: FuncId,
    func: &Function,
    e: EncodedV,
    t: TableV,
    n: int,
    o: ObligationV,
)
    requires
        proper(e),
        0 <= n <= derefs(p, func).len(),
        deref_obligations(
            p,
            f,
            func,
            e,
            t,
            clause_terms(t.summary(f).requires_),
            derefs(p, func),
            n,
        ).contains(o),
    ensures
        exists|d: Deref| #[trigger] asks_of_deref(p, f, func, e, t, d, o),
    decreases n,
{
    let ds = derefs(p, func);
    let pre = clause_terms(t.summary(f).requires_);
    let a = deref_obligations(p, f, func, e, t, pre, ds, n);
    let j = choose|j: int| 0 <= j < a.len() && a[j] == o;
    if n > 0 {
        let b = deref_obligations(p, f, func, e, t, pre, ds, n - 1);
        if j < b.len() {
            assert(b[j] == o);
            lemma_obligations_only(p, f, func, e, t, n - 1, o);
        } else {
            let d = ds[n - 1];
            assert(deref_obligation(p, f, func, e, t, pre, ds, d) == Some(o));
            assert(ds.contains(d));
            assert forall|env: Env| #[trigger] the_case(o.query, env) == derefs_nil(
                e,
                pre,
                ds,
                d,
                env,
            ) by {
                lemma_nil_query(e, pre, ds, d, env);
            }
            assert(asks_of_deref(p, f, func, e, t, d, o));
        }
    }
}

/// Of its own dereferences the checker asks only about those that are judged, in the words that
/// say why.
pub proof fn only_judged_dereferences_are_asked_about(
    p: &Program,
    f: FuncId,
    t: TableV,
    func: &Function,
    e: EncodedV,
    o: ObligationV,
)
    requires
        nil_encoding(p, f, t) == Some((*func, e)),
        proper(e),
        nil_obligations(p, f, t).contains(o),
        !calls_obligations(
            p,
            func,
            e,
            "nil-deref"@,
            clause_terms(t.summary(f).requires_),
            t,
            derefs(p, func),
            func.sites().len() as int,
        ).contains(o),
    ensures
        exists|d: Deref| #[trigger] asks_of_deref(p, f, func, e, t, d, o),
{
    let ds = derefs(p, func);
    let pre = clause_terms(t.summary(f).requires_);
    let own = deref_obligations(p, f, func, e, t, pre, ds, ds.len() as int);
    let calls = calls_obligations(
        p,
        func,
        e,
        "nil-deref"@,
        pre,
        t,
        ds,
        func.sites().len() as int,
    );
    let all = nil_obligations(p, f, t);
    let j = choose|j: int| 0 <= j < all.len() && all[j] == o;
    if j < own.len() {
        assert(own[j] == o);
    } else {
        assert(calls[j - own.len()] == o);
    }
    lemma_obligations_only(p, f, func, e, t, ds.len() as int, o);
}

} // verus!
