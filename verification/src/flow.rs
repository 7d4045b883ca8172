//! Control in an encoding: a block is reached by the edges that are taken, a branch takes its
//! first edge when its condition is true and its second when it is false, and a phi has the
//! value that comes with the taken edge.

use vstd::prelude::*;
use crate::arith::{modelled, value_of};
use crate::encode::{
    branch_cond_of, branch_value, edge_guard_of, edges_from, edges_into, guard_value, guarded,
    havoc_name_of, id_index, opt_seq, EncodedV,
};
use crate::graph::lists;
use crate::ir::{Function, Op, Program, ValueId};
use crate::meaning::{guard_def, lemma_edges_into_alike, lemma_guarded_alike};
use crate::nilness::lemma_all_hold_append;
use crate::ops::{op_def_of, phi_kept, phi_pick};
use crate::term::{mk_and, mk_not, Sort, TermV};
use crate::values::{
    all_hold, and_is_all, env_fits, holds, or_is_some, value, value_fits, Env, Value,
};

verus! {

// ---- Edges ----

/// The condition of the branch that ends block `b`.
pub open spec fn condition(f: &Function, b: int) -> Option<ValueId> {
    if 0 <= b < f.blocks@.len() && f.blocks@[b].instrs@.len() > 0 {
        match f.blocks@[b].instrs@[f.blocks@[b].instrs@.len() - 1].op {
            Op::Branch { cond } => Some(cond),
            _ => None,
        }
    } else {
        None
    }
}

/// Whether the condition `cond` of the branch that ends block `b` is true: its own value, or
/// that of a variable of its own where it is not modelled.
pub open spec fn turns_out(e: EncodedV, b: int, cond: ValueId, env: Env) -> bool {
    match e.value(cond) {
        Some(t) => holds(t, env),
        None => env(havoc_name_of(b), Sort::Bool) == Value::Bool(true),
    }
}

/// Whether block `b` is reached.
pub open spec fn is_reached(e: EncodedV, b: int, env: Env) -> bool {
    holds(e.guards[b], env)
}

/// Whether the edge from block `a` to block `b` is taken: `a` is reached, and where it ends in
/// a branch, the condition is true if `b` comes first and false if it comes second.
pub open spec fn taken(f: &Function, e: EncodedV, a: int, b: int, env: Env) -> bool {
    let succs = f.blocks@[a].succs@;
    &&& is_reached(e, a, env)
    &&& condition(f, a) matches Some(cond) ==> {
        &&& succs.len() > 0 && succs[0] == b ==> turns_out(e, a, cond, env)
        &&& succs.len() > 1 && succs[0] != b && succs[1] == b ==> !turns_out(e, a, cond, env)
    }
}

/// Whether guards and modelled conditions are boolean.
pub open spec fn decidable(f: &Function, e: EncodedV) -> bool {
    &&& e.guards.len() == f.blocks@.len()
    &&& e.dag.len() == f.blocks@.len()
    &&& forall|b: int|
        0 <= b < e.guards.len() ==> (#[trigger] e.guards[b]).sort() == Sort::Bool
            && e.guards[b].well_sorted()
    &&& forall|b: int|
        #![trigger condition(f, b)]
        condition(f, b) matches Some(c) ==> (e.value(c) matches Some(t) ==> t.sort() == Sort::Bool
            && t.well_sorted())
}

/// The guard of an edge is true exactly if the edge is taken.
pub proof fn edges_are_taken_as_branches_say(f: &Function, e: EncodedV, a: int, b: int, env: Env)
    requires
        decidable(f, e),
        0 <= a < f.blocks@.len(),
    ensures
        edge_guard_of(f, e, a, b) matches Some(t) && holds(t, env) == taken(f, e, a, b, env),
        env_fits(env) ==> value(edge_guard_of(f, e, a, b).unwrap(), env) is Bool,
{
    reveal_with_fuel(value, 2);
    reveal_with_fuel(id_index, 3);
    let g = e.guards[a];
    let succs = f.blocks@[a].succs@;
    if env_fits(env) {
        value_fits(g, env);
    }
    lemma_id_index(succs, b, 2);
    assert(condition(f, a) == branch_value(f, a));
    if let Some(c) = branch_cond_of(f, e, a) {
        let cond = condition(f, a).unwrap();
        assert(c.sort() == Sort::Bool);
        assert(holds(c, env) == turns_out(e, a, cond, env));
        let v = seq![g, c];
        and_is_all(v, env);
        assert(v[0] == g && v[1] == c);
        let nc = mk_not(c).unwrap();
        let w = seq![g, nc];
        and_is_all(w, env);
        assert(w[0] == g && w[1] == nc);
        assert(holds(nc, env) == !holds(c, env));
        assert(mk_and(v) == Some(TermV::And(v)));
        assert(mk_and(w) == Some(TermV::And(w)));
    }
}

proof fn lemma_id_index(s: Seq<u32>, b: int, from: int)
    requires
        from >= 0,
    ensures
        id_index(s, b, from) matches Some(i) ==> i >= from,
    decreases s.len() - from,
{
    if from < s.len() && s[from] as int != b {
        lemma_id_index(s, b, from + 1);
    }
}

// ---- Blocks ----

/// Whether one of `s` is true.
spec fn some_hold(s: Seq<TermV>, env: Env) -> bool {
    exists|i: int| 0 <= i < s.len() && holds(#[trigger] s[i], env)
}

proof fn lemma_some_append(a: Seq<TermV>, b: Seq<TermV>, env: Env)
    ensures
        some_hold(a + b, env) == (some_hold(a, env) || some_hold(b, env)),
{
    let s = a + b;
    if some_hold(s, env) {
        let i = choose|i: int| 0 <= i < s.len() && holds(#[trigger] s[i], env);
        if i < a.len() {
            assert(holds(a[i], env));
        } else {
            assert(holds(b[i - a.len()], env));
        }
    }
    if some_hold(a, env) {
        let i = choose|i: int| 0 <= i < a.len() && holds(#[trigger] a[i], env);
        assert(holds(s[i], env));
    }
    if some_hold(b, env) {
        let i = choose|i: int| 0 <= i < b.len() && holds(#[trigger] b[i], env);
        assert(holds(s[a.len() + i], env));
    }
}

proof fn lemma_from(f: &Function, e: EncodedV, a: int, b: int, j: int, env: Env)
    requires
        decidable(f, e),
        0 <= a < f.blocks@.len(),
        0 <= j <= e.dag[a].len(),
    ensures
        some_hold(edges_from(f, e, a, b, j), env) == (taken(f, e, a, b, env) && exists|i: int|
            0 <= i < j && #[trigger] e.dag[a][i] as int == b),
        edges_from(f, e, a, b, j).len() > 0 ==> exists|i: int|
            0 <= i < j && #[trigger] e.dag[a][i] as int == b,
        env_fits(env) ==> forall|i: int|
            0 <= i < edges_from(f, e, a, b, j).len() ==> value(
                #[trigger] edges_from(f, e, a, b, j)[i],
                env,
            ) is Bool,
    decreases j,
{
    if j > 0 {
        lemma_from(f, e, a, b, j - 1, env);
        edges_are_taken_as_branches_say(f, e, a, b, env);
        let last = opt_seq(edge_guard_of(f, e, a, b));
        lemma_some_append(edges_from(f, e, a, b, j - 1), last, env);
        let t = edge_guard_of(f, e, a, b).unwrap();
        assert(last[0] == t);
        assert(some_hold(last, env) == holds(t, env)) by {
            if holds(t, env) {
                assert(holds(last[0], env));
            }
        }
        if e.dag[a][j - 1] as int == b {
            assert(exists|i: int| 0 <= i < j && #[trigger] e.dag[a][i] as int == b);
        } else {
            if exists|i: int| 0 <= i < j && #[trigger] e.dag[a][i] as int == b {
                let i = choose|i: int| 0 <= i < j && #[trigger] e.dag[a][i] as int == b;
                assert(i < j - 1);
            }
        }
    }
}

proof fn lemma_into(f: &Function, e: EncodedV, b: int, n: int, env: Env)
    requires
        decidable(f, e),
        0 <= n <= f.blocks@.len(),
    ensures
        some_hold(edges_into(f, e, b, n), env) == exists|a: int|
            0 <= a < n && lists(#[trigger] e.dag[a], b) && taken(f, e, a, b, env),
        env_fits(env) ==> forall|i: int|
            0 <= i < edges_into(f, e, b, n).len() ==> value(
                #[trigger] edges_into(f, e, b, n)[i],
                env,
            ) is Bool,
    decreases n,
{
    if n > 0 {
        lemma_into(f, e, b, n - 1, env);
        let m = e.dag[n - 1].len() as int;
        lemma_from(f, e, n - 1, b, m, env);
        lemma_some_append(
            edges_into(f, e, b, n - 1),
            edges_from(f, e, n - 1, b, m),
            env,
        );
        assert(lists(e.dag[n - 1], b) == exists|i: int|
            0 <= i < m && #[trigger] e.dag[n - 1][i] as int == b);
        if exists|a: int|
            0 <= a < n && lists(#[trigger] e.dag[a], b) && taken(f, e, a, b, env) {
            let a = choose|a: int|
                0 <= a < n && lists(#[trigger] e.dag[a], b) && taken(f, e, a, b, env);
            if a < n - 1 {
                assert(0 <= a < n - 1 && lists(e.dag[a], b));
            }
        }
        if some_hold(edges_into(f, e, b, n - 1), env) {
            let a = choose|a: int|
                0 <= a < n - 1 && lists(#[trigger] e.dag[a], b) && taken(f, e, a, b, env);
            assert(0 <= a < n && lists(e.dag[a], b));
        }
    }
}

/// Whether control comes to block `b`: it is the entry, or the entry reaches it and a kept edge
/// to it is taken.
pub open spec fn entered(f: &Function, e: EncodedV, reachable: Seq<bool>, b: int, env: Env) -> bool {
    b == 0 || (reachable[b] && exists|a: int|
        0 <= a < f.blocks@.len() && lists(#[trigger] e.dag[a], b) && taken(f, e, a, b, env))
}

proof fn lemma_guard(f: &Function, e: EncodedV, reachable: Seq<bool>, b: int, env: Env)
    requires
        decidable(f, e),
        env_fits(env),
        0 <= b < f.blocks@.len(),
    ensures
        holds(guard_def(f, e, reachable, b), env) == (is_reached(e, b, env) == entered(
            f,
            e,
            reachable,
            b,
            env,
        )),
{
    reveal_with_fuel(value, 2);
    let g = e.guards[b];
    value_fits(g, env);
    let edges = edges_into(f, e, b, e.dag.len() as int);
    lemma_into(f, e, b, e.dag.len() as int, env);
    or_is_some(edges, env);
    let v = guard_value(f, e, reachable, b);
    assert(value(v, env) is Bool);
    if edges.len() == 1 {
        assert(some_hold(edges, env) == holds(edges[0], env)) by {
            if holds(edges[0], env) {
                assert(some_hold(edges, env));
            }
        }
    }
    assert(holds(v, env) == entered(f, e, reachable, b, env));
}

/// With the guards of the first `n` blocks defined, what an encoding allows is what it allowed
/// before with each of these blocks reached exactly if control comes to it.
pub proof fn blocks_are_reached_by_taken_edges(
    f: &Function,
    e: EncodedV,
    reachable: Seq<bool>,
    n: int,
    env: Env,
)
    requires
        decidable(f, e),
        env_fits(env),
        0 <= n <= f.blocks@.len(),
    ensures
        all_hold(guarded(f, e, reachable, n).asserts, env) <==> all_hold(e.asserts, env) && forall|
            b: int,
        |
            0 <= b < n ==> #[trigger] is_reached(e, b, env) == entered(f, e, reachable, b, env),
    decreases n,
{
    if n > 0 {
        blocks_are_reached_by_taken_edges(f, e, reachable, n - 1, env);
        let before = guarded(f, e, reachable, n - 1);
        lemma_guarded_alike(f, e, reachable, n - 1);
        lemma_edges_into_alike(f, before, e, n - 1, e.dag.len() as int);
        let d = guard_def(f, e, reachable, n - 1);
        let after = guarded(f, e, reachable, n).asserts;
        assert(after =~= before.asserts + seq![d]);
        lemma_all_hold_append(before.asserts, seq![d], env);
        assert(all_hold(seq![d], env) == holds(d, env)) by {
            assert(seq![d][0] == d);
        }
        lemma_guard(f, e, reachable, n - 1, env);
        if all_hold(after, env) {
            assert forall|b: int| 0 <= b < n implies #[trigger] is_reached(e, b, env) == entered(
                f,
                e,
                reachable,
                b,
                env,
            ) by {
                if b < n - 1 {
                    assert(is_reached(e, b, env) == entered(f, e, reachable, b, env));
                }
            }
        }
    }
}

// ---- Phis ----

/// Whether incoming edge `i` of a phi in `block` is kept.
pub open spec fn comes_in(f: &Function, e: EncodedV, block: int, i: int) -> bool {
    lists(e.dag[f.blocks@[block].preds@[i] as int], block)
}

/// The block that incoming edge `i` comes from.
pub open spec fn origin(f: &Function, block: int, i: int) -> int {
    f.blocks@[block].preds@[i] as int
}

/// Whether a phi has an incoming value of sort `s` for each incoming edge that is kept.
pub open spec fn phi_fits(
    f: &Function,
    e: EncodedV,
    block: int,
    edges: Seq<ValueId>,
    s: Sort,
) -> bool {
    &&& 0 <= block < f.blocks@.len()
    &&& edges.len() <= f.blocks@[block].preds@.len()
    &&& forall|i: int|
        0 <= i < edges.len() ==> #[trigger] origin(f, block, i) < f.blocks@.len() && (comes_in(
            f,
            e,
            block,
            i,
        ) ==> modelled(e, edges[i], s))
}

/// Whether incoming edge `i` is kept and taken.
pub open spec fn arrives(f: &Function, e: EncodedV, block: int, i: int, env: Env) -> bool {
    comes_in(f, e, block, i) && taken(f, e, origin(f, block, i), block, env)
}

proof fn lemma_kept(
    f: &Function,
    e: EncodedV,
    block: int,
    edges: Seq<ValueId>,
    s: Sort,
    n: int,
    at: int,
    env: Env,
)
    requires
        decidable(f, e),
        phi_fits(f, e, block, edges, s),
        0 <= n <= edges.len(),
        0 <= at < edges.len(),
        arrives(f, e, block, at, env),
        forall|i: int|
            0 <= i < edges.len() && i != at ==> !#[trigger] arrives(f, e, block, i, env),
    ensures
        phi_kept(f, e, block, edges, n) matches Some(kept) && {
            &&& forall|k: int|
                0 <= k < kept.len() ==> (#[trigger] kept[k]).0.sort() == Sort::Bool
                    && kept[k].1.sort() == s
            &&& forall|k: int|
                0 <= k < kept.len() && holds((#[trigger] kept[k]).0, env) ==> kept[k].1
                    == e.value(edges[at]).unwrap()
            &&& at < n ==> exists|k: int| 0 <= k < kept.len() && holds((#[trigger] kept[k]).0, env)
        },
    decreases n,
{
    if n > 0 {
        lemma_kept(f, e, block, edges, s, n - 1, at, env);
        let i = n - 1;
        let a = origin(f, block, i);
        let before = phi_kept(f, e, block, edges, n - 1).unwrap();
        assert(arrives(f, e, block, i, env) ==> i == at);
        edges_are_taken_as_branches_say(f, e, a, block, env);
        if comes_in(f, e, block, i) {
            let g = edge_guard_of(f, e, a, block).unwrap();
            let v = e.value(edges[i]).unwrap();
            let kept = before.push((g, v));
            assert(phi_kept(f, e, block, edges, n) == Some(kept));
            lemma_edge_sort(f, e, a, block);
            assert(kept[before.len() as int] == (g, v));
            if at < n - 1 {
                let k = choose|k: int|
                    0 <= k < before.len() && holds((#[trigger] before[k]).0, env);
                assert(holds(kept[k].0, env));
            }
        } else {
            assert(phi_kept(f, e, block, edges, n) == Some(before));
        }
    }
}

proof fn lemma_edge_sort(f: &Function, e: EncodedV, a: int, b: int)
    requires
        decidable(f, e),
        0 <= a < f.blocks@.len(),
    ensures
        edge_guard_of(f, e, a, b) matches Some(t) ==> t.sort() == Sort::Bool,
{
}

proof fn lemma_pick(kept: Seq<(TermV, TermV)>, s: Sort, v: TermV, env: Env)
    requires
        forall|k: int|
            0 <= k < kept.len() ==> (#[trigger] kept[k]).0.sort() == Sort::Bool && kept[k].1.sort()
                == s,
        forall|k: int|
            0 <= k < kept.len() && holds((#[trigger] kept[k]).0, env) ==> kept[k].1 == v,
        exists|k: int| 0 <= k < kept.len() && holds((#[trigger] kept[k]).0, env),
    ensures
        phi_pick(kept) matches Some(t) && t.sort() == s && value(t, env) == value(v, env),
    decreases kept.len(),
{
    if kept.len() > 1 {
        let rest = kept.drop_first();
        assert forall|k: int| 0 <= k < rest.len() implies (#[trigger] rest[k]) == kept[k + 1] by {}
        if holds(kept[0].0, env) {
            lemma_pick_sort(rest, s);
        } else {
            let k = choose|k: int| 0 <= k < kept.len() && holds((#[trigger] kept[k]).0, env);
            assert(rest[k - 1] == kept[k]);
            lemma_pick(rest, s, v, env);
        }
    }
}

proof fn lemma_pick_sort(kept: Seq<(TermV, TermV)>, s: Sort)
    requires
        kept.len() > 0,
        forall|k: int|
            0 <= k < kept.len() ==> (#[trigger] kept[k]).0.sort() == Sort::Bool && kept[k].1.sort()
                == s,
    ensures
        phi_pick(kept) matches Some(t) && t.sort() == s,
    decreases kept.len(),
{
    if kept.len() > 1 {
        let rest = kept.drop_first();
        assert forall|k: int| 0 <= k < rest.len() implies (#[trigger] rest[k]) == kept[k + 1] by {}
        lemma_pick_sort(rest, s);
    }
}

/// A phi has the value that comes with the edge by which its block is entered: what is asserted
/// of it is true exactly if its value is the one that stands for the taken edge.
pub proof fn phis_take_the_value_of_the_taken_edge(
    p: &Program,
    f: &Function,
    e: EncodedV,
    block: int,
    dst: ValueId,
    edges: Vec<ValueId>,
    s: Sort,
    at: int,
    env: Env,
)
    requires
        decidable(f, e),
        phi_fits(f, e, block, edges@, s),
        modelled(e, dst, s),
        0 <= at < edges@.len(),
        arrives(f, e, block, at, env),
        forall|i: int|
            0 <= i < edges@.len() && i != at ==> !#[trigger] arrives(f, e, block, i, env),
    ensures
        op_def_of(p, f, e, block, Op::Phi { dst, edges }) matches Some(d) && (holds(d, env) <==> value_of(
            e,
            dst,
            env,
        ) == value_of(e, edges@[at], env)),
{
    let n = edges@.len() as int;
    lemma_kept(f, e, block, edges@, s, n, at, env);
    let kept = phi_kept(f, e, block, edges@, n).unwrap();
    lemma_pick(kept, s, e.value(edges@[at]).unwrap(), env);
}

} // verus!
