//! What the encoding of a function allows: exactly the values under which every value is a
//! possible one, control takes the edges that the branches say, every operation gives what it
//! is defined to give, and loads that read the same agree.

use vstd::prelude::*;
use crate::arith::{modelled, value_of};
use crate::blocking::lemma_in_both;
use crate::dfs::{dfs_run, lemma_final_marks, lemma_run_inv};
use crate::encode::{
    arm_values, branch_cond_of, declared, declared_all, declared_conds, declared_sites, defined,
    edge_guard_of, encoded, encoded_decls, encoded_start, forward_block, forward_op, forward_order,
    guarded, key_of_value, lemma_decls_frame, opt_seq, same_load, seen_load, the_cut, the_topo,
    value_name_of, values_of, AddrKey, EncodedV, ForwardV,
};
use crate::flow::{
    blocks_are_reached_by_taken_edges, condition, decidable, entered, is_reached, taken,
};
use crate::graph::{lists, reaches, succ_graph};
use crate::ir::{Function, Op, Program, SelectArm, ValueId, ValueKind};
use crate::meaning::{alike, lemma_guarded_alike, lemma_the_cut};
use crate::nilness::lemma_all_hold_append;
use crate::ops::{op_def_of, phi_kept};
use crate::ranges::typed;
use crate::steps::{constant_fits, declared_values_are_possible, possible_value};
use crate::term::{Sort, TermV};
use crate::types::sort_of_type;
use crate::values::{all_hold, env_fits, fits, holds, value, Env, Value};

verus! {

// ---- Which values are modelled ----

/// Whether one of `s` is `v`.
pub open spec fn among(s: Seq<ValueId>, v: ValueId) -> bool {
    exists|i: int| 0 <= i < s.len() && #[trigger] s[i] == v
}

/// Whether an arm of a select is on `v` or sends it.
pub open spec fn in_arms(arms: Seq<SelectArm>, v: ValueId) -> bool {
    exists|i: int|
        0 <= i < arms.len() && ((#[trigger] arms[i]).chan == v || arms[i].send == Some(v))
}

/// Whether an operation reads or writes `v`.
pub open spec fn mentions(op: Op, v: ValueId) -> bool {
    match op {
        Op::Assign { dst, src } => v == dst || v == src,
        Op::Convert { dst, src } => v == dst || v == src,
        Op::MakeInterface { dst, src } => v == dst || v == src,
        Op::TypeAssert { dst, src, .. } => v == dst || v == src,
        Op::Alloc { dst, .. } => v == dst,
        Op::Load { dst, addr } => v == dst || v == addr,
        Op::Store { addr, val } => v == addr || v == val,
        Op::FieldAddr { dst, base, .. } => v == dst || v == base,
        Op::Field { dst, base, .. } => v == dst || v == base,
        Op::IndexAddr { dst, base, index } => v == dst || v == base || v == index,
        Op::Index { dst, base, index } => v == dst || v == base || v == index,
        Op::Lookup { dst, map, key, .. } => v == dst || v == map || v == key,
        Op::Slice { dst, base, low, high, max } => v == dst || v == base || low == Some(v) || high
            == Some(v) || max == Some(v),
        Op::BinOp { dst, lhs, rhs, .. } => v == dst || v == lhs || v == rhs,
        Op::UnOp { dst, operand, .. } => v == dst || v == operand,
        Op::Extract { dst, tuple, .. } => v == dst || v == tuple,
        Op::Phi { dst, edges } => v == dst || among(edges@, v),
        Op::Call { dst, args, .. } => dst == Some(v) || among(args@, v),
        Op::MakeClosure { dst, bindings, .. } => v == dst || among(bindings@, v),
        Op::Make { dst, args, .. } => v == dst || among(args@, v),
        Op::Send { chan, val } => v == chan || v == val,
        Op::Recv { dst, chan, .. } => v == dst || v == chan,
        Op::CloseChan { chan } => v == chan,
        Op::Select { dst, arms, .. } => v == dst || in_arms(arms@, v),
        Op::Go { args, .. } => among(args@, v),
        Op::Defer { args, .. } => among(args@, v),
        Op::Return { vals } => among(vals@, v),
        Op::Branch { cond } => v == cond,
        Op::Panic { val } => v == val,
        Op::Lock { mu, .. } => v == mu,
        Op::Havoc { dst } => dst == Some(v),
        Op::Jump => false,
    }
}

proof fn lemma_short(s: Seq<ValueId>, v: ValueId)
    ensures
        s.len() == 0 ==> !s.contains(v),
        s.len() == 1 ==> s.contains(v) == (s[0] == v),
        s.len() == 2 ==> s.contains(v) == (s[0] == v || s[1] == v),
        s.len() == 3 ==> s.contains(v) == (s[0] == v || s[1] == v || s[2] == v),
{
}

proof fn lemma_arms(arms: Seq<SelectArm>, n: int, v: ValueId)
    requires
        0 <= n <= arms.len(),
    ensures
        arm_values(arms, n).contains(v) == in_arms(arms.take(n), v),
    decreases n,
{
    if n > 0 {
        lemma_arms(arms, n - 1, v);
        let a = arms[n - 1];
        let before = arm_values(arms, n - 1);
        lemma_in_both(before, seq![a.chan], v);
        lemma_in_both(before + seq![a.chan], opt_seq(a.send), v);
        lemma_short(seq![a.chan], v);
        lemma_short(opt_seq(a.send), v);
        let all = arms.take(n);
        let some = arms.take(n - 1);
        if in_arms(all, v) {
            let i = choose|i: int|
                0 <= i < all.len() && ((#[trigger] all[i]).chan == v || all[i].send == Some(v));
            if i < n - 1 {
                assert(some[i] == all[i]);
            }
        }
        if in_arms(some, v) {
            let i = choose|i: int|
                0 <= i < some.len() && ((#[trigger] some[i]).chan == v || some[i].send == Some(v));
            assert(all[i] == some[i]);
        }
        assert(all[n - 1] == a);
    }
}

/// The values of an operation are those that it reads or writes.
pub proof fn values_are_those_mentioned(op: Op, v: ValueId)
    ensures
        values_of(op).contains(v) == mentions(op, v),
{
    match op {
        Op::Slice { dst, base, low, high, max } => {
            let a = seq![dst, base];
            lemma_short(a, v);
            lemma_short(opt_seq(low), v);
            lemma_short(opt_seq(high), v);
            lemma_short(opt_seq(max), v);
            lemma_in_both(a, opt_seq(low), v);
            lemma_in_both(a + opt_seq(low), opt_seq(high), v);
            lemma_in_both(a + opt_seq(low) + opt_seq(high), opt_seq(max), v);
        },
        Op::Phi { dst, edges } => {
            lemma_short(seq![dst], v);
            lemma_in_both(seq![dst], edges@, v);
        },
        Op::Call { dst, args, .. } => {
            lemma_short(opt_seq(dst), v);
            lemma_in_both(opt_seq(dst), args@, v);
        },
        Op::MakeClosure { dst, bindings, .. } => {
            lemma_short(seq![dst], v);
            lemma_in_both(seq![dst], bindings@, v);
        },
        Op::Make { dst, args, .. } => {
            lemma_short(seq![dst], v);
            lemma_in_both(seq![dst], args@, v);
        },
        Op::Select { dst, arms, .. } => {
            let n = arms@.len() as int;
            lemma_short(seq![dst], v);
            lemma_arms(arms@, n, v);
            assert(arms@.take(n) =~= arms@);
            lemma_in_both(seq![dst], arm_values(arms@, n), v);
        },
        _ => {
            lemma_short(values_of(op), v);
        },
    }
}

/// Whether the function has `v`: as a parameter, or in one of its first `k` instructions.
spec fn met(f: &Function, v: ValueId, k: int) -> bool {
    among(f.params@, v) || exists|i: int|
        0 <= i < k && mentions(f.op_at(#[trigger] f.sites()[i]), v)
}

// ---- Declarations ----

/// Whether each constant has a type that it can have.
pub open spec fn constants_fit(p: &Program, f: &Function) -> bool {
    forall|v: ValueId|
        (#[trigger] f.kind_of(v)) matches ValueKind::Const(c) ==> constant_fits(p, f.type_of(v), c)
}

/// Whether each modelled value of `e` is a variable of its own, of the sort of its type.
pub open spec fn named_values(p: &Program, f: &Function, e: EncodedV) -> bool {
    forall|v: ValueId|
        (#[trigger] e.value(v)) matches Some(t) ==> (sort_of_type(&p.types, f.type_of(v)) matches Some(
            s,
        ) && t == TermV::Var(value_name_of(f, v), s))
}

/// Whether all modelled values have possible values.
pub open spec fn all_possible(p: &Program, f: &Function, e: EncodedV, env: Env) -> bool {
    forall|v: ValueId|
        (#[trigger] e.value(v)) is Some ==> possible_value(p, f, v, value_of(e, v, env))
}

/// What holds while values are declared.
spec fn declaring(p: &Program, f: &Function, e: EncodedV, env: Env) -> bool {
    &&& named_values(p, f, e)
    &&& all_hold(e.asserts, env) == all_possible(p, f, e, env)
}

proof fn lemma_one(p: &Program, f: &Function, e: EncodedV, v: ValueId, env: Env)
    requires
        env_fits(env),
        constants_fit(p, f),
        declaring(p, f, e, env),
    ensures
        declaring(p, f, declared(p, f, e, v), env),
        forall|u: ValueId| #[trigger]
            declared(p, f, e, v).value(u) is Some == (e.value(u) is Some || (u == v && sort_of_type(
                &p.types,
                f.type_of(v),
            ) is Some)),
{
    let d = declared(p, f, e, v);
    if e.value(v) is None {
        if let Some(s) = sort_of_type(&p.types, f.type_of(v)) {
            assert(f.kind_of(v) matches ValueKind::Const(c) ==> constant_fits(p, f.type_of(v), c));
            declared_values_are_possible(p, f, e, v, s, env);
            let t = TermV::Var(value_name_of(f, v), s);
            assert(value(t, env) == env(value_name_of(f, v), s));
            assert forall|u: ValueId| u != v implies #[trigger] d.value(u) == e.value(u) by {}
            assert(d.value(v) == Some(t));
            if all_possible(p, f, d, env) {
                assert forall|u: ValueId| (#[trigger] e.value(u)) is Some implies possible_value(
                    p,
                    f,
                    u,
                    value_of(e, u, env),
                ) by {
                    assert(d.value(u) == e.value(u));
                }
                assert(possible_value(p, f, v, value_of(d, v, env)));
            }
            if all_possible(p, f, e, env) && possible_value(p, f, v, value(t, env)) {
                assert forall|u: ValueId| (#[trigger] d.value(u)) is Some implies possible_value(
                    p,
                    f,
                    u,
                    value_of(d, u, env),
                ) by {
                    if u != v {
                        assert(d.value(u) == e.value(u));
                    }
                }
            }
        }
    }
}

proof fn lemma_list(p: &Program, f: &Function, e: EncodedV, vs: Seq<ValueId>, n: int, env: Env)
    requires
        env_fits(env),
        constants_fit(p, f),
        declaring(p, f, e, env),
        0 <= n <= vs.len(),
    ensures
        declaring(p, f, declared_all(p, f, e, vs, n), env),
        forall|u: ValueId| #[trigger]
            declared_all(p, f, e, vs, n).value(u) is Some == (e.value(u) is Some || (among(
                vs.take(n),
                u,
            ) && sort_of_type(&p.types, f.type_of(u)) is Some)),
    decreases n,
{
    if n > 0 {
        lemma_list(p, f, e, vs, n - 1, env);
        let before = declared_all(p, f, e, vs, n - 1);
        lemma_one(p, f, before, vs[n - 1], env);
        let all = vs.take(n);
        let some = vs.take(n - 1);
        assert forall|u: ValueId| #[trigger] declared_all(p, f, e, vs, n).value(u) is Some == (e.value(
            u,
        ) is Some || (among(all, u) && sort_of_type(&p.types, f.type_of(u)) is Some)) by {
            assert(before.value(u) is Some == (e.value(u) is Some || (among(some, u)
                && sort_of_type(&p.types, f.type_of(u)) is Some)));
            assert(all[n - 1] == vs[n - 1]);
            if among(all, u) {
                let i = choose|i: int| 0 <= i < all.len() && #[trigger] all[i] == u;
                if i < n - 1 {
                    assert(some[i] == u);
                }
            }
            if among(some, u) {
                let i = choose|i: int| 0 <= i < some.len() && #[trigger] some[i] == u;
                assert(all[i] == u);
            }
        }
    }
}

proof fn lemma_sites(p: &Program, f: &Function, e: EncodedV, k: int, env: Env)
    requires
        env_fits(env),
        constants_fit(p, f),
        declaring(p, f, e, env),
        forall|u: ValueId| #[trigger]
            e.value(u) is Some == (met(f, u, 0) && sort_of_type(&p.types, f.type_of(u)) is Some),
        0 <= k <= f.sites().len(),
    ensures
        declaring(p, f, declared_sites(p, f, e, k), env),
        forall|u: ValueId| #[trigger]
            declared_sites(p, f, e, k).value(u) is Some == (met(f, u, k) && sort_of_type(
                &p.types,
                f.type_of(u),
            ) is Some),
    decreases k,
{
    if k > 0 {
        lemma_sites(p, f, e, k - 1, env);
        let op = f.op_at(f.sites()[k - 1]);
        let vs = values_of(op);
        let before = declared_sites(p, f, e, k - 1);
        lemma_list(p, f, before, vs, vs.len() as int, env);
        assert(vs.take(vs.len() as int) =~= vs);
        assert forall|u: ValueId| #[trigger] declared_sites(p, f, e, k).value(u) is Some == (met(
            f,
            u,
            k,
        ) && sort_of_type(&p.types, f.type_of(u)) is Some) by {
            values_are_those_mentioned(op, u);
            assert(among(vs, u) == vs.contains(u));
            assert(before.value(u) is Some == (met(f, u, k - 1) && sort_of_type(
                &p.types,
                f.type_of(u),
            ) is Some));
            if met(f, u, k) && !among(f.params@, u) {
                let i = choose|i: int|
                    0 <= i < k && mentions(f.op_at(#[trigger] f.sites()[i]), u);
                if i < k - 1 {
                    assert(met(f, u, k - 1));
                }
            }
            if met(f, u, k - 1) && !among(f.params@, u) {
                let i = choose|i: int|
                    0 <= i < k - 1 && mentions(f.op_at(#[trigger] f.sites()[i]), u);
                assert(0 <= i < k && mentions(f.op_at(f.sites()[i]), u));
            }
        }
    }
}

proof fn lemma_conds(f: &Function, e: EncodedV, n: int)
    ensures
        declared_conds(f, e, n).asserts == e.asserts,
        declared_conds(f, e, n).values == e.values,
    decreases n,
{
    if n > 0 {
        lemma_conds(f, e, n - 1);
    }
}

/// Whether the function has `v`: as a parameter, or in an instruction.
pub open spec fn occurs(f: &Function, v: ValueId) -> bool {
    among(f.params@, v) || exists|i: int|
        0 <= i < f.sites().len() && mentions(f.op_at(#[trigger] f.sites()[i]), v)
}

proof fn lemma_decls(p: &Program, f: &Function, env: Env)
    requires
        env_fits(env),
        constants_fit(p, f),
    ensures
        declaring(p, f, encoded_decls(p, f), env),
        forall|u: ValueId| #[trigger]
            encoded_decls(p, f).value(u) is Some == (occurs(f, u) && sort_of_type(
                &p.types,
                f.type_of(u),
            ) is Some),
{
    let e0 = encoded_start(f);
    assert(declaring(p, f, e0, env));
    let m = f.params@.len() as int;
    lemma_list(p, f, e0, f.params@, m, env);
    assert(f.params@.take(m) =~= f.params@);
    let e1 = declared_all(p, f, e0, f.params@, m);
    assert forall|u: ValueId| #[trigger] e1.value(u) is Some == (met(f, u, 0) && sort_of_type(
        &p.types,
        f.type_of(u),
    ) is Some) by {
        assert(e0.value(u) is None);
    }
    let k = f.sites().len() as int;
    lemma_sites(p, f, e1, k, env);
    let e2 = declared_sites(p, f, e1, k);
    let n = f.blocks@.len() as int;
    lemma_conds(f, e2, n);
    let e3 = encoded_decls(p, f);
    assert forall|u: ValueId| #[trigger] e3.value(u) == e2.value(u) by {}
    assert(all_possible(p, f, e3, env) == all_possible(p, f, e2, env)) by {
        if all_possible(p, f, e2, env) {
            assert forall|u: ValueId| (#[trigger] e3.value(u)) is Some implies possible_value(
                p,
                f,
                u,
                value_of(e3, u, env),
            ) by {
                assert(e2.value(u) == e3.value(u));
            }
        }
        if all_possible(p, f, e3, env) {
            assert forall|u: ValueId| (#[trigger] e2.value(u)) is Some implies possible_value(
                p,
                f,
                u,
                value_of(e2, u, env),
            ) by {
                assert(e3.value(u) == e2.value(u));
            }
        }
    }
    assert(named_values(p, f, e3)) by {
        assert forall|u: ValueId| (#[trigger] e3.value(u)) is Some implies (sort_of_type(
            &p.types,
            f.type_of(u),
        ) matches Some(s) && e3.value(u) == Some(TermV::Var(value_name_of(f, u), s))) by {
            assert(e2.value(u) == e3.value(u));
        }
    }
    assert forall|u: ValueId| #[trigger] e3.value(u) is Some == (occurs(f, u) && sort_of_type(
        &p.types,
        f.type_of(u),
    ) is Some) by {
        assert(e2.value(u) == e3.value(u));
        assert(met(f, u, k) == occurs(f, u));
    }
}

// ---- Operations ----

/// Whether instruction `i` gives what it is defined to give.
pub open spec fn gives(p: &Program, f: &Function, e: EncodedV, i: int, env: Env) -> bool {
    let s = f.sites()[i];
    op_def_of(p, f, e, s.0 as int, f.op_at(s)) matches Some(d) ==> holds(d, env)
}

proof fn lemma_phi_alike(
    f: &Function,
    a: EncodedV,
    b: EncodedV,
    block: int,
    edges: Seq<ValueId>,
    n: int,
)
    requires
        alike(a, b),
    ensures
        phi_kept(f, a, block, edges, n) == phi_kept(f, b, block, edges, n),
    decreases n,
{
    if n > 0 {
        lemma_phi_alike(f, a, b, block, edges, n - 1);
        let from = f.blocks@[block].preds@[n - 1] as int;
        assert(branch_cond_of(f, a, from) == branch_cond_of(f, b, from));
        assert(edge_guard_of(f, a, from, block) == edge_guard_of(f, b, from, block));
        assert(a.value(edges[n - 1]) == b.value(edges[n - 1]));
    }
}

proof fn lemma_op_alike(p: &Program, f: &Function, a: EncodedV, b: EncodedV, block: int, op: Op)
    requires
        alike(a, b),
    ensures
        op_def_of(p, f, a, block, op) == op_def_of(p, f, b, block, op),
{
    assert forall|v: ValueId| #[trigger] a.value(v) == b.value(v) by {}
    if let Op::Phi { dst, edges } = op {
        lemma_phi_alike(f, a, b, block, edges@, edges@.len() as int);
    }
}

proof fn lemma_defined_alike(p: &Program, f: &Function, e: EncodedV, k: int)
    ensures
        alike(defined(p, f, e, k), e),
    decreases k,
{
    if k > 0 {
        lemma_defined_alike(p, f, e, k - 1);
    }
}

proof fn lemma_defined(p: &Program, f: &Function, e: EncodedV, k: int, env: Env)
    requires
        0 <= k <= f.sites().len(),
    ensures
        all_hold(defined(p, f, e, k).asserts, env) == (all_hold(e.asserts, env) && forall|i: int|
            0 <= i < k ==> #[trigger] gives(p, f, e, i, env)),
    decreases k,
{
    if k > 0 {
        lemma_defined(p, f, e, k - 1, env);
        lemma_defined_alike(p, f, e, k - 1);
        let before = defined(p, f, e, k - 1);
        let s = f.sites()[k - 1];
        let d = op_def_of(p, f, e, s.0 as int, f.op_at(s));
        lemma_op_alike(p, f, before, e, s.0 as int, f.op_at(s));
        assert(defined(p, f, e, k).asserts =~= before.asserts + opt_seq(d));
        lemma_all_hold_append(before.asserts, opt_seq(d), env);
        if let Some(t) = d {
            assert(opt_seq(d)[0] == t);
            assert(all_hold(opt_seq(d), env) == holds(t, env));
        }
        assert(all_hold(opt_seq(d), env) == gives(p, f, e, k - 1, env));
        if all_hold(defined(p, f, e, k).asserts, env) {
            assert forall|i: int| 0 <= i < k implies #[trigger] gives(p, f, e, i, env) by {
                if i < k - 1 {
                    assert(gives(p, f, e, i, env));
                }
            }
        }
    }
}

// ---- Whole functions ----

/// Whether what branches decide by is boolean.
pub open spec fn branches_on_booleans(p: &Program, f: &Function) -> bool {
    forall|b: int|
        (#[trigger] condition(f, b)) matches Some(c) ==> (sort_of_type(&p.types, f.type_of(c)) matches Some(
            s,
        ) ==> s == Sort::Bool)
}

/// The equalities of loads that read the same.
pub open spec fn load_equalities(f: &Function, e: EncodedV) -> Seq<TermV> {
    forward_order(f, e, the_topo(e.dag), the_topo(e.dag).len() as int).found
}

/// In an encoding exactly the values are modelled that the function has and whose types are;
/// each is a variable of its own.
pub proof fn modelled_values_are_those_of_the_function(p: &Program, f: &Function, v: ValueId)
    requires
        constants_fit(p, f),
    ensures
        encoded(p, f).value(v) == (if occurs(f, v) {
            match sort_of_type(&p.types, f.type_of(v)) {
                Some(s) => Some(TermV::Var(value_name_of(f, v), s)),
                None => None,
            }
        } else {
            None
        }),
        typed(p, f, encoded(p, f)),
{
    let env: Env = |n: Seq<char>, s: Sort| some_value(s);
    assert(env_fits(env)) by {
        assert forall|n: Seq<char>, s: Sort| fits(#[trigger] env(n, s), s) by {
            if let Sort::BitVec(w) = s {
                vstd::arithmetic::power2::lemma_pow2_pos(w as nat);
            }
            vstd::arithmetic::power2::lemma_pow2_pos(64);
        }
    }
    lemma_decls(p, f, env);
    lemma_alike(p, f);
    let d = encoded_decls(p, f);
    let e = encoded(p, f);
    assert forall|u: ValueId| #[trigger] e.value(u) == d.value(u) by {}
}

spec fn some_value(s: Sort) -> Value {
    match s {
        Sort::Bool => Value::Bool(true),
        Sort::BitVec(w) => Value::Bits(0),
        Sort::Ptr => Value::Ptr(0),
        Sort::GoSeq => Value::Slice(0, 0),
    }
}

proof fn lemma_alike(p: &Program, f: &Function)
    ensures
        alike(encoded(p, f), encoded_decls(p, f)),
{
    let d = encoded_decls(p, f);
    let r = the_cut(succ_graph(f)).1;
    let n = f.blocks@.len() as int;
    lemma_guarded_alike(f, d, r, n);
    lemma_defined_alike(p, f, guarded(f, d, r, n), f.sites().len() as int);
}

/// The encoding of a function allows exactly the values under which every value is a possible
/// one, each block is reached exactly if control comes to it, every instruction gives what it
/// is defined to give, and loads that read the same agree.
pub proof fn encodings_allow_executions(p: &Program, f: &Function, env: Env)
    requires
        env_fits(env),
        constants_fit(p, f),
        branches_on_booleans(p, f),
    ensures
        ({
            let e = encoded(p, f);
            all_hold(e.asserts, env) <==> {
                &&& all_possible(p, f, e, env)
                &&& forall|b: int|
                    0 <= b < f.blocks@.len() ==> #[trigger] is_reached(e, b, env) == entered(
                        f,
                        e,
                        the_cut(succ_graph(f)).1,
                        b,
                        env,
                    )
                &&& forall|i: int| 0 <= i < f.sites().len() ==> #[trigger] gives(p, f, e, i, env)
                &&& all_hold(load_equalities(f, e), env)
            }
        }),
        forall|b: int|
            0 <= b < f.blocks@.len() ==> (#[trigger] the_cut(succ_graph(f)).1[b] <==> reaches(
                succ_graph(f),
                0,
                b,
            )),
{
    let e = encoded(p, f);
    let d = encoded_decls(p, f);
    let r = the_cut(succ_graph(f)).1;
    let n = f.blocks@.len() as int;
    let k = f.sites().len() as int;
    lemma_decls(p, f, env);
    lemma_decls_frame(p, f);
    lemma_alike(p, f);
    let graph = succ_graph(f);
    let st = lemma_the_cut(f);
    let u = choose|u: nat| #[trigger] dfs_run(graph, u) == st;
    lemma_run_inv(graph, u);
    lemma_final_marks(graph, st);
    lemma_decidable(p, f, d);
    blocks_are_reached_by_taken_edges(f, d, r, n, env);
    let g = guarded(f, d, r, n);
    lemma_guarded_alike(f, d, r, n);
    lemma_defined(p, f, g, k, env);
    lemma_defined_alike(p, f, g, k);
    let o = defined(p, f, g, k);
    lemma_forward_alike(f, o, e);
    assert(e.asserts =~= o.asserts + load_equalities(f, e));
    lemma_all_hold_append(o.asserts, load_equalities(f, e), env);
    assert forall|v: ValueId| #[trigger] e.value(v) == d.value(v) by {}
    assert(all_possible(p, f, e, env) == all_possible(p, f, d, env)) by {
        lemma_possible_alike(p, f, e, d, env);
        lemma_possible_alike(p, f, d, e, env);
    }
    assert forall|i: int| 0 <= i < k implies #[trigger] gives(p, f, e, i, env) == gives(
        p,
        f,
        g,
        i,
        env,
    ) by {
        let s = f.sites()[i];
        lemma_op_alike(p, f, e, g, s.0 as int, f.op_at(s));
    }
    assert forall|b: int| 0 <= b < n implies #[trigger] is_reached(e, b, env) == is_reached(
        d,
        b,
        env,
    ) && entered(f, e, r, b, env) == entered(f, d, r, b, env) by {
        lemma_entered_alike(f, e, d, r, b, env);
        lemma_entered_alike(f, d, e, r, b, env);
    }
    if all_hold(e.asserts, env) {
        assert forall|b: int| 0 <= b < n implies #[trigger] is_reached(e, b, env) == entered(
            f,
            e,
            r,
            b,
            env,
        ) by {
            assert(is_reached(d, b, env) == entered(f, d, r, b, env));
        }
        assert forall|i: int| 0 <= i < k implies #[trigger] gives(p, f, e, i, env) by {
            assert(gives(p, f, g, i, env));
        }
    }
    if all_possible(p, f, e, env) && (forall|b: int|
        0 <= b < n ==> #[trigger] is_reached(e, b, env) == entered(f, e, r, b, env)) && (forall|
        i: int,
    |
        0 <= i < k ==> #[trigger] gives(p, f, e, i, env)) {
        assert forall|b: int| 0 <= b < n implies #[trigger] is_reached(d, b, env) == entered(
            f,
            d,
            r,
            b,
            env,
        ) by {
            assert(is_reached(e, b, env) == entered(f, e, r, b, env));
        }
        assert forall|i: int| 0 <= i < k implies #[trigger] gives(p, f, g, i, env) by {
            assert(gives(p, f, e, i, env));
        }
    }
}

proof fn lemma_possible_alike(p: &Program, f: &Function, a: EncodedV, b: EncodedV, env: Env)
    requires
        alike(a, b),
    ensures
        all_possible(p, f, a, env) ==> all_possible(p, f, b, env),
{
    if all_possible(p, f, a, env) {
        assert forall|v: ValueId| (#[trigger] b.value(v)) is Some implies possible_value(
            p,
            f,
            v,
            value_of(b, v, env),
        ) by {
            assert(a.value(v) == b.value(v));
        }
    }
}

proof fn lemma_entered_alike(
    f: &Function,
    a: EncodedV,
    b: EncodedV,
    r: Seq<bool>,
    x: int,
    env: Env,
)
    requires
        alike(a, b),
    ensures
        entered(f, a, r, x, env) ==> entered(f, b, r, x, env),
{
    if entered(f, a, r, x, env) && x != 0 {
        let y = choose|y: int|
            0 <= y < f.blocks@.len() && lists(#[trigger] a.dag[y], x)
                && taken(f, a, y, x, env);
        assert(lists(b.dag[y], x));
        if let Some(c) = condition(f, y) {
            assert(a.value(c) == b.value(c));
        }
        assert(taken(f, b, y, x, env));
    }
}

proof fn lemma_decidable(p: &Program, f: &Function, e: EncodedV)
    requires
        named_values(p, f, e),
        branches_on_booleans(p, f),
        e.guards == encoded_start(f).guards,
        e.dag.len() == f.blocks@.len(),
    ensures
        decidable(f, e),
{
    assert forall|b: int| #![trigger condition(f, b)] condition(f, b) is Some && e.value(
        condition(f, b).unwrap(),
    ) is Some implies e.value(condition(f, b).unwrap()).unwrap().sort() == Sort::Bool && e.value(
        condition(f, b).unwrap(),
    ).unwrap().well_sorted() by {
        let c = condition(f, b).unwrap();
        assert(e.value(c) is Some);
    }
}

proof fn lemma_forward_block_alike(
    f: &Function,
    a: EncodedV,
    b: EncodedV,
    st: ForwardV,
    x: int,
    n: int,
)
    requires
        alike(a, b),
    ensures
        forward_block(f, a, st, x, n) == forward_block(f, b, st, x, n),
    decreases n,
{
    if n > 0 {
        lemma_forward_block_alike(f, a, b, st, x, n - 1);
        assert forall|v: ValueId| #[trigger] a.value(v) == b.value(v) by {}
    }
}

proof fn lemma_forward_order_alike(
    f: &Function,
    a: EncodedV,
    b: EncodedV,
    order: Seq<int>,
    n: int,
)
    requires
        alike(a, b),
    ensures
        forward_order(f, a, order, n) == forward_order(f, b, order, n),
    decreases n,
{
    if n > 0 {
        lemma_forward_order_alike(f, a, b, order, n - 1);
        let st = forward_order(f, a, order, n - 1);
        let x = order[n - 1];
        lemma_forward_block_alike(f, a, b, st, x, f.blocks@[x].instrs@.len() as int);
    }
}

proof fn lemma_forward_alike(f: &Function, a: EncodedV, b: EncodedV)
    requires
        alike(a, b),
    ensures
        load_equalities(f, a) == load_equalities(f, b),
{
    lemma_forward_order_alike(f, a, b, the_topo(a.dag), the_topo(a.dag).len() as int);
}

// ---- Loads ----

/// Whether an operation may change what addresses hold.
pub open spec fn overwrites(op: Op) -> bool {
    match op {
        Op::Store { .. } => true,
        Op::Havoc { dst } => dst is None,
        _ => false,
    }
}

/// Two loads from one address agree if nothing is overwritten between them: the equality that
/// the second adds holds exactly if both have the same value.
pub proof fn repeated_loads_agree(
    e: EncodedV,
    st: ForwardV,
    a: ValueId,
    b: ValueId,
    addr: ValueId,
    op: Op,
    s: Sort,
    env: Env,
)
    requires
        modelled(e, a, s),
        modelled(e, b, s),
        !overwrites(op),
        !(op is Load) && !(op is Assign) && !(op is FieldAddr) && !(op is IndexAddr),
        forall|i: int|
            0 <= i < st.seen.len() ==> (#[trigger] st.seen[i]).0 != key_of_value(st.keys, addr),
    ensures
        ({
            let first = forward_op(e, st, Op::Load { dst: a, addr });
            let later = forward_op(e, forward_op(e, first, op), Op::Load { dst: b, addr });
            all_hold(later.found, env) <==> all_hold(st.found, env) && value_of(e, a, env)
                == value_of(e, b, env)
        }),
{
    let k = key_of_value(st.keys, addr);
    lemma_unseen(st.seen, k, 0);
    let seen = st.seen.push((k, a));
    lemma_seen_last(seen, k, 0);
    let d = same_load(e, b, a).unwrap();
    lemma_all_hold_append(st.found, seq![d], env);
    assert(seq![d][0] == d);
    assert(all_hold(seq![d], env) == holds(d, env));
}

proof fn lemma_unseen(seen: Seq<(AddrKey, ValueId)>, k: AddrKey, from: int)
    requires
        0 <= from,
        forall|i: int| from <= i < seen.len() ==> (#[trigger] seen[i]).0 != k,
    ensures
        seen_load(seen, k, from) is None,
    decreases seen.len() - from,
{
    if from < seen.len() {
        lemma_unseen(seen, k, from + 1);
    }
}

proof fn lemma_seen_last(seen: Seq<(AddrKey, ValueId)>, k: AddrKey, from: int)
    requires
        0 <= from < seen.len(),
        forall|i: int| from <= i < seen.len() - 1 ==> (#[trigger] seen[i]).0 != k,
        seen.last().0 == k,
    ensures
        seen_load(seen, k, from) == Some(seen.last().1),
    decreases seen.len() - from,
{
    if from < seen.len() - 1 {
        lemma_seen_last(seen, k, from + 1);
    }
}

/// What is loaded before something is overwritten says nothing of what is loaded after.
pub proof fn overwriting_separates_loads(
    e: EncodedV,
    st: ForwardV,
    op: Op,
    b: ValueId,
    addr: ValueId,
)
    requires
        overwrites(op),
    ensures
        forward_op(e, forward_op(e, st, op), Op::Load { dst: b, addr }).found == st.found,
{
}

} // verus!
