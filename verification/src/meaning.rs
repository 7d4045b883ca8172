//! What a satisfiable query says: that its block is reached along a path of the function.

use vstd::prelude::*;
use crate::dfs::{
    cut_graph, dfs_final, dfs_run, is_cut, lemma_cut_graph_edge, lemma_final_marks, lemma_run_inv,
    left_before, search_ends, DfsV,
};
use crate::encode::{
    branch_cond_of, defined, edge_guard_of, edges_from, edges_into, encoded, encoded_decls,
    encoded_start, encoding_with, forwarded, guard_value, guarded, opt_seq, the_cut, with_ensures,
    EncodedV,
};
use crate::graph::{edge, lists, reaches, succ_graph};
use crate::ir::{FuncId, Function, Program};
use crate::query::QueryV;
use crate::summary::TableV;
use crate::term::{mk_not, t_eq, t_not, Sort, TermV};

verus! {

/// Whether `h` gives truth values to boolean terms as their connectives ask. Every model of a
/// solver gives such values.
pub open spec fn respects(h: spec_fn(TermV) -> bool) -> bool {
    &&& h(TermV::BoolLit(true))
    &&& !h(TermV::BoolLit(false))
    &&& forall|a: TermV| #[trigger] h(t_not(a)) == !h(a)
    &&& forall|v: Seq<TermV>, i: int|
        #![trigger h(TermV::And(v)), v[i]]
        0 <= i < v.len() && h(TermV::And(v)) ==> h(v[i])
    &&& forall|v: Seq<TermV>| #[trigger]
        h(TermV::Or(v)) ==> exists|i: int| 0 <= i < v.len() && h(#[trigger] v[i])
    &&& forall|a: TermV, b: TermV| #[trigger]
        h(t_eq(a, b)) && a.sort() == Sort::Bool ==> h(a) == h(b)
}

/// The truth value of a term, given those of the terms without boolean structure.
pub open spec fn truth(t: TermV, atom: spec_fn(TermV) -> bool) -> bool
    decreases t,
{
    match t {
        TermV::BoolLit(b) => b,
        TermV::Not(a) => !truth(*a, atom),
        TermV::And(v) => forall|i: int| 0 <= i < v.len() ==> truth(#[trigger] v[i], atom),
        TermV::Or(v) => exists|i: int| 0 <= i < v.len() && truth(#[trigger] v[i], atom),
        TermV::Eq(a, b) => if (*a).sort() == Sort::Bool {
            truth(*a, atom) == truth(*b, atom)
        } else {
            atom(t)
        },
        TermV::Ite(c, a, b) => if truth(*c, atom) {
            truth(*a, atom)
        } else {
            truth(*b, atom)
        },
        _ => atom(t),
    }
}

proof fn lemma_and_true(v: Seq<TermV>, i: int, atom: spec_fn(TermV) -> bool)
    requires
        0 <= i < v.len(),
        truth(TermV::And(v), atom),
    ensures
        truth(v[i], atom),
{
    let t = TermV::And(v);
    assert(t->And_0[i] == v[i]);
    assert(truth(t->And_0[i], atom));
}

/// Whatever the truth values of the terms without boolean structure, those of the others
/// respect the connectives.
pub proof fn truth_respects(atom: spec_fn(TermV) -> bool)
    ensures
        respects(|t: TermV| truth(t, atom)),
{
    let h = |t: TermV| truth(t, atom);
    assert forall|a: TermV| #[trigger] h(t_not(a)) == !h(a) by {}
    assert forall|v: Seq<TermV>, i: int|
        #![trigger h(TermV::And(v)), v[i]]
        0 <= i < v.len() && h(TermV::And(v)) implies h(v[i]) by {
        lemma_and_true(v, i, atom);
    }
    assert forall|v: Seq<TermV>| #[trigger] h(TermV::Or(v)) implies exists|i: int|
        0 <= i < v.len() && h(#[trigger] v[i]) by {
        let i = choose|i: int| 0 <= i < v.len() && truth(#[trigger] v[i], atom);
        assert(h(v[i]));
    }
}

/// Whether all of `s` are true.
pub open spec fn all_true(h: spec_fn(TermV) -> bool, s: Seq<TermV>) -> bool {
    forall|i: int| 0 <= i < s.len() ==> h(#[trigger] s[i])
}

/// Whether truth values are possible under which all assertions of `q` hold. A query for
/// which this fails is unsatisfiable.
pub open spec fn possible(q: QueryV) -> bool {
    exists|h: spec_fn(TermV) -> bool| #[trigger] respects(h) && all_true(h, q.asserts)
}

/// What is assumed excludes its negation: a query that asserts both is unsatisfiable. So no
/// call is reported whose callee requires what the caller requires already.
pub proof fn assumption_excludes_negation(e: EncodedV, block: int, extra: Seq<TermV>, a: TermV, n: TermV)
    requires
        extra.contains(a),
        extra.contains(n),
        mk_not(a) == Some(n),
    ensures
        !possible(e.reach(block, extra)),
{
    let q = e.reach(block, extra);
    if possible(q) {
        let h = choose|h: spec_fn(TermV) -> bool| #[trigger] respects(h) && all_true(h, q.asserts);
        let i = choose|i: int| 0 <= i < extra.len() && extra[i] == a;
        let j = choose|j: int| 0 <= j < extra.len() && extra[j] == n;
        let m = e.asserts.len() + opt_seq(e.guard(block)).len();
        assert(q.asserts[m + i] == a);
        assert(q.asserts[m + j] == n);
        assert(h(t_not(a)) == !h(a));
    }
}

// ---- Guards ----

/// That the guard of block `b` equals its value.
pub open spec fn guard_def(f: &Function, e: EncodedV, reached: Seq<bool>, b: int) -> TermV {
    t_eq(e.guards[b], guard_value(f, e, reached, b))
}

/// Whether two encodings have the same guards, values and kept edges.
pub open spec fn alike(a: EncodedV, b: EncodedV) -> bool {
    a.guards == b.guards && a.values == b.values && a.dag == b.dag
}

proof fn lemma_edges_from_alike(f: &Function, a: EncodedV, b: EncodedV, x: int, s: int, j: int)
    requires
        alike(a, b),
    ensures
        edges_from(f, a, x, s, j) == edges_from(f, b, x, s, j),
    decreases j,
{
    if j > 0 {
        lemma_edges_from_alike(f, a, b, x, s, j - 1);
        assert(branch_cond_of(f, a, x) == branch_cond_of(f, b, x));
        assert(edge_guard_of(f, a, x, s) == edge_guard_of(f, b, x, s));
    }
}

/// The edges into a block depend on guards, values and kept edges only.
pub proof fn lemma_edges_into_alike(f: &Function, a: EncodedV, b: EncodedV, s: int, n: int)
    requires
        alike(a, b),
    ensures
        edges_into(f, a, s, n) == edges_into(f, b, s, n),
    decreases n,
{
    if n > 0 {
        lemma_edges_into_alike(f, a, b, s, n - 1);
        lemma_edges_from_alike(f, a, b, n - 1, s, a.dag[n - 1].len() as int);
    }
}

/// What is said of a guard depends on guards, values and kept edges only.
pub proof fn lemma_guard_def_alike(f: &Function, a: EncodedV, b: EncodedV, reached: Seq<bool>, x: int)
    requires
        alike(a, b),
    ensures
        guard_def(f, a, reached, x) == guard_def(f, b, reached, x),
{
    lemma_edges_into_alike(f, a, b, x, a.dag.len() as int);
}

proof fn lemma_guarded_has(f: &Function, e: EncodedV, reached: Seq<bool>, n: int, b: int)
    requires
        0 <= b < n,
    ensures
        alike(guarded(f, e, reached, n), e),
        guarded(f, e, reached, n).asserts.contains(guard_def(f, e, reached, b)),
    decreases n,
{
    let before = guarded(f, e, reached, n - 1);
    let after = guarded(f, e, reached, n);
    if b < n - 1 {
        lemma_guarded_has(f, e, reached, n - 1, b);
        let i = choose|i: int|
            0 <= i < before.asserts.len() && before.asserts[i] == guard_def(f, e, reached, b);
        assert(after.asserts[i] == before.asserts[i]);
    } else {
        lemma_guarded_alike(f, e, reached, n - 1);
        lemma_guard_def_alike(f, before, e, reached, b);
        assert(after.asserts[before.asserts.len() as int] == guard_def(f, e, reached, b));
    }
}

/// Defining guards changes no guard, no value and no kept edge.
pub proof fn lemma_guarded_alike(f: &Function, e: EncodedV, reached: Seq<bool>, n: int)
    ensures
        alike(guarded(f, e, reached, n), e),
    decreases n,
{
    if n > 0 {
        lemma_guarded_alike(f, e, reached, n - 1);
    }
}

proof fn lemma_defined_keeps(p: &Program, f: &Function, e: EncodedV, k: int, t: TermV)
    requires
        e.asserts.contains(t),
    ensures
        alike(defined(p, f, e, k), e),
        defined(p, f, e, k).asserts.contains(t),
    decreases k,
{
    if k > 0 {
        lemma_defined_keeps(p, f, e, k - 1, t);
        let before = defined(p, f, e, k - 1);
        let after = defined(p, f, e, k);
        let i = choose|i: int| 0 <= i < before.asserts.len() && before.asserts[i] == t;
        assert(after.asserts[i] == before.asserts[i]);
    }
}

proof fn lemma_ensures_keep(f: &Function, e: EncodedV, t: TableV, k: int, x: TermV)
    requires
        e.asserts.contains(x),
    ensures
        alike(with_ensures(f, e, t, k), e),
        with_ensures(f, e, t, k).asserts.contains(x),
    decreases k,
{
    if k > 0 {
        lemma_ensures_keep(f, e, t, k - 1, x);
        let before = with_ensures(f, e, t, k - 1);
        let after = with_ensures(f, e, t, k);
        let i = choose|i: int| 0 <= i < before.asserts.len() && before.asserts[i] == x;
        assert(after.asserts[i] == before.asserts[i]);
    }
}

/// An encoding defines the guard of every block.
proof fn lemma_guard_defined(p: &Program, id: FuncId, f: &Function, t: TableV, e: EncodedV, b: int)
    requires
        p.body(id) == Some(*f),
        encoding_with(p, id, t) == Ok::<EncodedV, Seq<char>>(e),
        0 <= b < f.blocks@.len(),
    ensures
        e.dag == the_cut(succ_graph(f)).0,
        e.guards == encoded_start(f).guards,
        e.asserts.contains(guard_def(f, e, the_cut(succ_graph(f)).1, b)),
{
    let reached = the_cut(succ_graph(f)).1;
    let d = encoded_decls(p, f);
    let n = f.blocks@.len() as int;
    let k = f.sites().len() as int;
    crate::encode::lemma_decls_frame(p, f);
    let g = guarded(f, d, reached, n);
    lemma_guarded_has(f, d, reached, n, b);
    let x = guard_def(f, d, reached, b);
    lemma_defined_keeps(p, f, g, k, x);
    let o = defined(p, f, g, k);
    let w = forwarded(f, o);
    let i = choose|i: int| 0 <= i < o.asserts.len() && o.asserts[i] == x;
    assert(w.asserts[i] == x);
    assert(w == encoded(p, f));
    lemma_ensures_keep(f, w, t, k, x);
    lemma_guard_def_alike(f, d, e, reached, b);
}

/// Where an edge's guard is true, so is that of the block it comes from.
proof fn lemma_edge_guard_true(f: &Function, e: EncodedV, h: spec_fn(TermV) -> bool, from: int, to: int)
    requires
        respects(h),
        0 <= from < e.guards.len(),
    ensures
        edge_guard_of(f, e, from, to) matches Some(t) ==> (h(t) ==> h(e.guards[from])),
{
    let g = e.guards[from];
    if let Some(t) = edge_guard_of(f, e, from, to) {
        if let Some(c) = branch_cond_of(f, e, from) {
            let v = seq![g, c];
            assert(v[0] == g);
            assert(h(TermV::And(v)) ==> h(v[0]));
            if let Some(nc) = mk_not(c) {
                let w = seq![g, nc];
                assert(w[0] == g);
                assert(h(TermV::And(w)) ==> h(w[0]));
            }
        }
    }
}

proof fn lemma_edges_from_source(f: &Function, e: EncodedV, b: int, s: int, j: int, i: int)
    requires
        0 <= i < edges_from(f, e, b, s, j).len(),
        j <= e.dag[b].len(),
    ensures
        lists(e.dag[b], s),
        edge_guard_of(f, e, b, s) == Some(edges_from(f, e, b, s, j)[i]),
    decreases j,
{
    if j > 0 {
        let before = edges_from(f, e, b, s, j - 1);
        if i < before.len() {
            lemma_edges_from_source(f, e, b, s, j - 1, i);
        } else {
            assert(e.dag[b][j - 1] as int == s);
        }
    }
}

proof fn lemma_edges_into_source(f: &Function, e: EncodedV, s: int, n: int, i: int) -> (from: int)
    requires
        0 <= i < edges_into(f, e, s, n).len(),
        n <= e.dag.len(),
    ensures
        0 <= from < n,
        lists(e.dag[from], s),
        edge_guard_of(f, e, from, s) == Some(edges_into(f, e, s, n)[i]),
    decreases n,
{
    if n > 0 {
        let before = edges_into(f, e, s, n - 1);
        if i < before.len() {
            lemma_edges_into_source(f, e, s, n - 1, i)
        } else {
            lemma_edges_from_source(
                f,
                e,
                n - 1,
                s,
                e.dag[n - 1].len() as int,
                i - before.len(),
            );
            n - 1
        }
    } else {
        0
    }
}

/// A block whose guard is true is the entry, or is entered from a block whose guard is true.
proof fn lemma_entered(
    p: &Program,
    id: FuncId,
    f: &Function,
    t: TableV,
    e: EncodedV,
    h: spec_fn(TermV) -> bool,
    b: int,
) -> (from: int)
    requires
        p.body(id) == Some(*f),
        encoding_with(p, id, t) == Ok::<EncodedV, Seq<char>>(e),
        0 < b < f.blocks@.len(),
        respects(h),
        all_true(h, e.asserts),
        h(e.guards[b]),
        e.dag.len() == f.blocks@.len(),
    ensures
        the_cut(succ_graph(f)).1[b],
        0 <= from < f.blocks@.len(),
        lists(e.dag[from], b),
        h(e.guards[from]),
{
    let reached = the_cut(succ_graph(f)).1;
    lemma_guard_defined(p, id, f, t, e, b);
    let d = guard_def(f, e, reached, b);
    let i = choose|i: int| 0 <= i < e.asserts.len() && e.asserts[i] == d;
    assert(h(e.asserts[i]));
    let v = guard_value(f, e, reached, b);
    assert(e.guards[b].sort() == Sort::Bool);
    assert(h(t_eq(e.guards[b], v)));
    assert(h(v));
    let edges = edges_into(f, e, b, e.dag.len() as int);
    assert(reached[b] && edges.len() > 0);
    let k = if edges.len() == 1 {
        0
    } else {
        assert(h(TermV::Or(edges)));
        choose|k: int| 0 <= k < edges.len() && h(#[trigger] edges[k])
    };
    assert(h(edges[k]));
    let from = lemma_edges_into_source(f, e, b, e.dag.len() as int, k);
    lemma_edge_guard_true(f, e, h, from, b);
    from
}

/// What cutting back edges gives is what the search found.
pub proof fn lemma_the_cut(f: &Function) -> (st: DfsV)
    ensures
        dfs_final(succ_graph(f), st),
        the_cut(succ_graph(f)).0 == cut_graph(succ_graph(f), st),
        the_cut(succ_graph(f)).1 =~= Seq::new(succ_graph(f).len(), |b: int| st.marks[b] != 0),
{
    let g = succ_graph(f);
    search_ends(g);
    let s0 = choose|st: DfsV| #[trigger] dfs_final(g, st);
    let r0 = (cut_graph(g, s0), Seq::new(g.len(), |b: int| s0.marks[b] != 0));
    assert(is_cut(g, r0.0, r0.1));
    let r = the_cut(g);
    assert(is_cut(g, r.0, r.1));
    choose|st: DfsV| #[trigger]
        dfs_final(g, st) && r.0 == cut_graph(g, st) && r.1 =~= Seq::new(
            g.len(),
            |b: int| st.marks[b] != 0,
        )
}

// ---- Laws ----

/// A block that the entry does not reach is never reached: asking for it is unsatisfiable.
pub proof fn unreached_block_is_impossible(
    p: &Program,
    id: FuncId,
    f: &Function,
    t: TableV,
    b: int,
    extra: Seq<TermV>,
)
    requires
        p.body(id) == Some(*f),
        0 < b < f.blocks@.len(),
        !reaches(succ_graph(f), 0, b),
    ensures
        encoding_with(p, id, t) matches Ok(e) ==> !possible(e.reach(b, extra)),
{
    if let Ok(e) = encoding_with(p, id, t) {
        let q = e.reach(b, extra);
        let g = succ_graph(f);
        let st = lemma_the_cut(f);
        let u = choose|u: nat| #[trigger] dfs_run(g, u) == st;
        lemma_run_inv(g, u);
        lemma_final_marks(g, st);
        lemma_guard_defined(p, id, f, t, e, b);
        if possible(q) {
            let h = choose|h: spec_fn(TermV) -> bool| #[trigger] respects(h) && all_true(h, q.asserts);
            lemma_reach_true(e, b, extra, h);
            let from = lemma_entered(p, id, f, t, e, h, b);
        }
    }
}

/// The assertions of an encoding and the guard of the block that is asked for are among those
/// of the query.
proof fn lemma_reach_true(e: EncodedV, b: int, extra: Seq<TermV>, h: spec_fn(TermV) -> bool)
    requires
        0 <= b < e.guards.len(),
        all_true(h, e.reach(b, extra).asserts),
    ensures
        all_true(h, e.asserts),
        h(e.guards[b]),
{
    let q = e.reach(b, extra);
    assert forall|i: int| 0 <= i < e.asserts.len() implies h(#[trigger] e.asserts[i]) by {
        assert(q.asserts[i] == e.asserts[i]);
    }
    assert(q.asserts[e.asserts.len() as int] == e.guards[b]);
}

/// A path of kept edges from the entry to `b`, on which all guards are true.
pub open spec fn true_path(e: EncodedV, h: spec_fn(TermV) -> bool, path: Seq<int>, b: int) -> bool {
    &&& path.len() > 0
    &&& path[0] == 0
    &&& path.last() == b
    &&& forall|i: int|
        0 <= i < path.len() ==> 0 <= #[trigger] path[i] < e.guards.len() && h(e.guards[path[i]])
    &&& forall|i: int|
        #![trigger path[i]]
        0 <= i < path.len() - 1 ==> lists(e.dag[path[i]], path[i + 1])
}

/// A block that is reached is reached along a path: where the query for a block is
/// satisfiable, the model makes all guards on some path of kept edges from the entry to the
/// block true.
pub proof fn reached_block_has_a_path(
    p: &Program,
    id: FuncId,
    f: &Function,
    t: TableV,
    e: EncodedV,
    b: int,
    extra: Seq<TermV>,
    h: spec_fn(TermV) -> bool,
)
    requires
        p.body(id) == Some(*f),
        encoding_with(p, id, t) == Ok::<EncodedV, Seq<char>>(e),
        0 <= b < f.blocks@.len(),
        respects(h),
        all_true(h, e.reach(b, extra).asserts),
    ensures
        exists|path: Seq<int>| true_path(e, h, path, b),
{
    let g = succ_graph(f);
    let st = lemma_the_cut(f);
    let u = choose|u: nat| #[trigger] dfs_run(g, u) == st;
    lemma_run_inv(g, u);
    lemma_final_marks(g, st);
    lemma_guard_defined(p, id, f, t, e, b);
    lemma_reach_true(e, b, extra, h);
    lemma_path(p, id, f, t, e, h, st, b);
}

/// The place of `b` in the order in which the search left the blocks.
spec fn place_left(st: DfsV, b: int) -> int {
    choose|q: int| 0 <= q < st.order.len() && st.order[q] == b
}

proof fn lemma_path(
    p: &Program,
    id: FuncId,
    f: &Function,
    t: TableV,
    e: EncodedV,
    h: spec_fn(TermV) -> bool,
    st: DfsV,
    b: int,
)
    requires
        p.body(id) == Some(*f),
        encoding_with(p, id, t) == Ok::<EncodedV, Seq<char>>(e),
        0 <= b < f.blocks@.len(),
        respects(h),
        all_true(h, e.asserts),
        h(e.guards[b]),
        e.guards.len() == f.blocks@.len(),
        crate::dfs::dfs_inv(succ_graph(f), st),
        st.stack.len() == 0,
        e.dag == cut_graph(succ_graph(f), st),
        the_cut(succ_graph(f)).1 =~= Seq::new(succ_graph(f).len(), |b: int| st.marks[b] != 0),
    ensures
        exists|path: Seq<int>| true_path(e, h, path, b),
    decreases st.order.len() - (if b == 0 { st.order.len() as int } else { place_left(st, b) }),
{
    if b == 0 {
        let path = seq![0int];
        assert(true_path(e, h, path, 0));
    } else {
        let g = succ_graph(f);
        assert(e.dag.len() == f.blocks@.len());
        lemma_final_marks(g, st);
        let from = lemma_entered(p, id, f, t, e, h, b);
        assert(st.marks[b] != 0);
        assert(st.order.contains(b));
        let q = place_left(st, b);
        if from != 0 {
            assert(e.dag.len() == f.blocks@.len());
            let before = lemma_entered(p, id, f, t, e, h, from);
            assert(st.marks[from] != 0);
            assert(st.order.contains(from));
            let r = place_left(st, from);
            assert(edge(e.dag, from, b));
            lemma_cut_graph_edge(g, st, from, b);
            assert(edge(g, st.order[r], b));
            assert(left_before(st.order, b, r));
            let w = choose|w: int| 0 <= w < r && w < st.order.len() && #[trigger] st.order[w] == b;
            assert(st.order[w] == st.order[q]);
            assert(w == q);
        }
        lemma_path(p, id, f, t, e, h, st, from);
        let start = choose|path: Seq<int>| true_path(e, h, path, from);
        let path = start.push(b);
        assert forall|i: int| #![trigger path[i]] 0 <= i < path.len() - 1 implies lists(
            e.dag[path[i]],
            path[i + 1],
        ) by {
            if i < start.len() - 1 {
                assert(path[i] == start[i] && path[i + 1] == start[i + 1]);
            } else {
                assert(path[i] == start.last());
            }
        }
        assert forall|i: int| 0 <= i < path.len() implies 0 <= #[trigger] path[i] < e.guards.len() && h(
            e.guards[path[i]],
        ) by {
            if i < start.len() {
                assert(path[i] == start[i]);
            }
        }
        assert(true_path(e, h, path, b));
    }
}

} // verus!
