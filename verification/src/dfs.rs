//! Depth-first search from the entry block: which edges go back, which blocks are reached,
//! and the order in which blocks are left.

use vstd::prelude::*;
use crate::graph::{
    adj, edge, lists, lemma_edge_reach, lemma_reach_compose, lemma_reach_in_range, lemma_reach_step,
    reach_k, reaches, reaches_plus, succ_graph, succ_lists,
};
use crate::ir::Function;

verus! {

/// A state of the search. A block is marked 0 before it is reached, 1 while it is on the
/// stack and 2 once it is left. A stack frame is a block and the number of its successors
/// already looked at. `cut` lists the edges found to lead back to a block on the stack,
/// `order` the blocks in the order in which they were left.
#[verifier::ext_equal]
pub struct DfsV {
    pub marks: Seq<int>,
    pub stack: Seq<(int, int)>,
    pub cut: Seq<(int, int)>,
    pub order: Seq<int>,
}

/// The search before its first step: only the entry is on the stack.
pub open spec fn dfs_init(n: nat) -> DfsV {
    DfsV {
        marks: Seq::new(n, |i: int| if i == 0 { 1int } else { 0int }),
        stack: if n == 0 { Seq::empty() } else { seq![(0int, 0int)] },
        cut: Seq::empty(),
        order: Seq::empty(),
    }
}

/// One step: look at the next successor of the block on top of the stack, or leave the block
/// when there is none.
pub open spec fn dfs_step(g: Seq<Seq<u32>>, st: DfsV) -> DfsV {
    if st.stack.len() == 0 {
        st
    } else {
        let top = st.stack.len() - 1;
        let b = st.stack[top].0;
        let i = st.stack[top].1;
        if i < g[b].len() {
            let s = g[b][i] as int;
            let stack = st.stack.update(top, (b, i + 1));
            if s >= g.len() {
                DfsV { stack, ..st }
            } else if st.marks[s] == 0 {
                DfsV { marks: st.marks.update(s, 1), stack: stack.push((s, 0)), ..st }
            } else if st.marks[s] == 1 {
                DfsV { stack, cut: st.cut.push((b, s)), ..st }
            } else {
                DfsV { stack, ..st }
            }
        } else {
            DfsV {
                marks: st.marks.update(b, 2),
                stack: st.stack.drop_last(),
                order: st.order.push(b),
                ..st
            }
        }
    }
}

/// The search after `t` steps.
pub open spec fn dfs_run(g: Seq<Seq<u32>>, t: nat) -> DfsV
    decreases t,
{
    if t == 0 {
        dfs_init(g.len())
    } else {
        dfs_step(g, dfs_run(g, (t - 1) as nat))
    }
}

/// Whether `st` is what the search of `g` ends in.
pub open spec fn dfs_final(g: Seq<Seq<u32>>, st: DfsV) -> bool {
    st.stack.len() == 0 && exists|t: nat| #[trigger] dfs_run(g, t) == st
}

/// A finished search stays as it is.
proof fn lemma_run_stops(g: Seq<Seq<u32>>, t: nat, u: nat)
    requires
        dfs_run(g, t).stack.len() == 0,
        t <= u,
    ensures
        dfs_run(g, u) == dfs_run(g, t),
    decreases u,
{
    if t < u {
        lemma_run_stops(g, t, (u - 1) as nat);
    }
}

/// The search ends in one state only.
pub proof fn dfs_final_unique(g: Seq<Seq<u32>>, a: DfsV, b: DfsV)
    requires
        dfs_final(g, a),
        dfs_final(g, b),
    ensures
        a == b,
{
    let t = choose|t: nat| #[trigger] dfs_run(g, t) == a;
    let u = choose|u: nat| #[trigger] dfs_run(g, u) == b;
    if t <= u {
        lemma_run_stops(g, t, u);
    } else {
        lemma_run_stops(g, u, t);
    }
}

/// Whether `x` is on the stack.
pub open spec fn on_stack(st: DfsV, x: int) -> bool {
    exists|j: int| 0 <= j < st.stack.len() && (#[trigger] st.stack[j]).0 == x
}

/// Whether `x` was left before position `p` of the order.
pub open spec fn left_before(order: Seq<int>, x: int, p: int) -> bool {
    exists|q: int| 0 <= q < p && q < order.len() && #[trigger] order[q] == x
}

/// What holds of the marks.
pub open spec fn inv_marks(g: Seq<Seq<u32>>, st: DfsV) -> bool {
    &&& st.marks.len() == g.len()
    &&& forall|x: int| 0 <= x < g.len() ==> 0 <= #[trigger] st.marks[x] <= 2
    &&& forall|x: int| 0 <= x < g.len() ==> (#[trigger] st.marks[x] == 1 <==> on_stack(st, x))
    &&& forall|x: int| 0 <= x < g.len() ==> (#[trigger] st.marks[x] == 2 <==> st.order.contains(x))
    &&& forall|x: int|
        0 <= x < g.len() && #[trigger] st.marks[x] != 0 ==> reaches(g, 0, x)
    &&& g.len() > 0 ==> st.marks[0] != 0
}

/// What holds of the stack.
pub open spec fn inv_stack(g: Seq<Seq<u32>>, st: DfsV) -> bool {
    &&& forall|j: int|
        0 <= j < st.stack.len() ==> 0 <= (#[trigger] st.stack[j]).0 < g.len() && 0
            <= st.stack[j].1 <= g[st.stack[j].0].len()
    &&& forall|i: int, j: int|
        0 <= i < j < st.stack.len() ==> (#[trigger] st.stack[i]).0 != (#[trigger] st.stack[j]).0
    &&& st.stack.len() > 0 ==> st.stack[0].0 == 0
    &&& forall|j: int|
        0 < j < st.stack.len() ==> #[trigger] linked(g, st, j)
}

/// The block in stack frame `j` was entered from the one below, by an edge that is not cut.
pub open spec fn linked(g: Seq<Seq<u32>>, st: DfsV, j: int) -> bool {
    let below = st.stack[j - 1];
    &&& below.1 > 0
    &&& g[below.0][below.1 - 1] as int == st.stack[j].0
    &&& !st.cut.contains((below.0, st.stack[j].0))
}

/// What holds of the order: each block left is listed once, and an edge leads to it from a
/// block that is not left yet or was left later, but for the entry.
pub open spec fn inv_order(g: Seq<Seq<u32>>, st: DfsV) -> bool {
    &&& forall|p: int| 0 <= p < st.order.len() ==> 0 <= #[trigger] st.order[p] < g.len()
    &&& forall|p: int, q: int|
        0 <= p < q < st.order.len() ==> #[trigger] st.order[p] != #[trigger] st.order[q]
    &&& forall|p: int|
        0 <= p < st.order.len() && st.order[p] != 0 ==> #[trigger] entered(g, st, p)
}

/// Whether the block at position `p` of the order was entered from `a`: by an edge that is not
/// cut, and `a` is not left yet or was left later.
pub open spec fn entered_from(g: Seq<Seq<u32>>, st: DfsV, p: int, a: int) -> bool {
    &&& edge(g, a, st.order[p])
    &&& !st.cut.contains((a, st.order[p]))
    &&& st.marks[a] == 1 || exists|q: int|
        p < q < st.order.len() && #[trigger] st.order[q] == a
}

/// The block at position `p` of the order was entered from some block.
pub open spec fn entered(g: Seq<Seq<u32>>, st: DfsV, p: int) -> bool {
    exists|a: int| #[trigger] entered_from(g, st, p, a)
}

/// What holds of the edges: those cut close a cycle, and those kept lead from a block that
/// was left to one that was left earlier.
pub open spec fn inv_edges(g: Seq<Seq<u32>>, st: DfsV) -> bool {
    &&& forall|c: int|
        0 <= c < st.cut.len() ==> edge(g, (#[trigger] st.cut[c]).0, st.cut[c].1) && reaches(
            g,
            st.cut[c].1,
            st.cut[c].0,
        ) && st.marks[st.cut[c].0] != 0 && st.marks[st.cut[c].1] != 0
    &&& forall|p: int, s: int|
        0 <= p < st.order.len() && #[trigger] edge(g, #[trigger] st.order[p], s)
            ==> st.cut.contains((st.order[p], s)) || left_before(st.order, s, p)
    &&& forall|j: int, i: int|
        0 <= j < st.stack.len() && 0 <= i < st.stack[j].1 ==> #[trigger] looked_at(g, st, j, i)
}

/// Successor `i` of the block in stack frame `j` is dealt with: it names no block, its edge
/// is cut, it was left, or it is the frame above.
pub open spec fn looked_at(g: Seq<Seq<u32>>, st: DfsV, j: int, i: int) -> bool {
    let b = st.stack[j].0;
    let s = g[b][i] as int;
    s < g.len() ==> st.cut.contains((b, s)) || st.marks[s] == 2 || (j + 1 < st.stack.len() && i
        == st.stack[j].1 - 1)
}

/// The invariant of the search.
pub open spec fn dfs_inv(g: Seq<Seq<u32>>, st: DfsV) -> bool {
    inv_marks(g, st) && inv_stack(g, st) && inv_order(g, st) && inv_edges(g, st)
}

proof fn lemma_init_inv(g: Seq<Seq<u32>>)
    ensures
        dfs_inv(g, dfs_init(g.len())),
{
    let st = dfs_init(g.len());
    if g.len() > 0 {
        assert(reach_k(g, 0, 0, 0));
        assert(st.stack[0].0 == 0);
        assert(on_stack(st, 0));
    }
}

/// The path along the stack.
proof fn lemma_stack_path(g: Seq<Seq<u32>>, st: DfsV, i: int, j: int)
    requires
        inv_stack(g, st),
        0 <= i <= j < st.stack.len(),
    ensures
        reaches(g, st.stack[i].0, st.stack[j].0),
    decreases j - i,
{
    if i == j {
        assert(reach_k(g, st.stack[i].0, st.stack[j].0, 0));
    } else {
        lemma_stack_path(g, st, i, j - 1);
        let below = st.stack[j - 1];
        assert(linked(g, st, j));
        assert(lists(g[below.0], st.stack[j].0));
        lemma_reach_step(g, st.stack[i].0, below.0, st.stack[j].0);
    }
}

/// A step that goes to a new block keeps the invariant.
proof fn lemma_push_inv(g: Seq<Seq<u32>>, st: DfsV)
    requires
        dfs_inv(g, st),
        st.stack.len() > 0,
        st.stack.last().1 < g[st.stack.last().0].len(),
        (g[st.stack.last().0][st.stack.last().1] as int) < g.len(),
        st.marks[g[st.stack.last().0][st.stack.last().1] as int] == 0,
    ensures
        dfs_inv(g, dfs_step(g, st)),
{
    let top = st.stack.len() - 1;
    let b = st.stack[top].0;
    let i = st.stack[top].1;
    let s = g[b][i] as int;
    let nx = dfs_step(g, st);
    assert(lists(g[b], s));
    assert(edge(g, b, s));
    assert(on_stack(st, b));
    assert(st.marks[b] == 1);
    lemma_reach_step(g, 0, b, s);
    assert(nx.stack[top + 1] == (s, 0int));
    assert(nx.stack[top] == (b, i + 1));
    assert forall|x: int| 0 <= x < g.len() implies (#[trigger] nx.marks[x] == 1 <==> on_stack(nx, x)) by {
        if on_stack(st, x) {
            let j = choose|j: int| 0 <= j < st.stack.len() && (#[trigger] st.stack[j]).0 == x;
            assert(nx.stack[j].0 == x);
        }
        if x == s {
            assert(nx.stack[top + 1].0 == x);
        }
        if on_stack(nx, x) {
            let j = choose|j: int| 0 <= j < nx.stack.len() && (#[trigger] nx.stack[j]).0 == x;
            if j <= top {
                assert(st.stack[j].0 == x);
            }
        }
    }
    assert forall|i2: int, j2: int| 0 <= i2 < j2 < nx.stack.len() implies (#[trigger] nx.stack[i2]).0 != (
    #[trigger] nx.stack[j2]).0 by {
        if j2 == top + 1 {
            assert(st.stack[i2].0 != s) by {
                assert(on_stack(st, st.stack[i2].0));
            }
        } else {
            assert(st.stack[i2].0 != st.stack[j2].0);
        }
    }
    assert forall|j: int| 0 < j < nx.stack.len() implies #[trigger] linked(g, nx, j) by {
        if j <= top {
            assert(linked(g, st, j));
        } else if nx.cut.contains((b, s)) {
            let c = choose|c: int| 0 <= c < st.cut.len() && st.cut[c] == (b, s);
            assert(st.marks[st.cut[c].1] != 0);
        }
    }
    assert forall|p: int| 0 <= p < nx.order.len() && nx.order[p] != 0 implies #[trigger] entered(g, nx, p) by {
        assert(entered(g, st, p));
        let a = choose|a: int| #[trigger] entered_from(g, st, p, a);
        assert(entered_from(g, nx, p, a));
    }
    assert forall|j: int, i2: int|
        0 <= j < nx.stack.len() && 0 <= i2 < nx.stack[j].1 implies #[trigger] looked_at(g, nx, j, i2) by {
        if j < top {
            assert(st.stack[j] == nx.stack[j]);
            assert(looked_at(g, st, j, i2));
        } else if j == top && i2 < i {
            assert(st.stack[top].1 == i);
            assert(looked_at(g, st, top, i2));
        }
    }
    assert(inv_edges(g, nx));
    assert(inv_marks(g, nx));
}

proof fn lemma_cut_push(st: DfsV, nx: DfsV, new: (int, int), other: (int, int))
    requires
        nx.cut == st.cut || nx.cut == st.cut.push(new),
        !st.cut.contains(other),
        other != new || nx.cut == st.cut,
    ensures
        !nx.cut.contains(other),
{
    if nx.cut.contains(other) {
        let k = choose|k: int| 0 <= k < nx.cut.len() && nx.cut[k] == other;
        if k < st.cut.len() {
            assert(st.cut[k] == other);
        }
    }
}

/// A step that finds a block already reached, or no block at all, keeps the invariant.
proof fn lemma_look_inv(g: Seq<Seq<u32>>, st: DfsV)
    requires
        dfs_inv(g, st),
        st.stack.len() > 0,
        st.stack.last().1 < g[st.stack.last().0].len(),
        (g[st.stack.last().0][st.stack.last().1] as int) >= g.len()
            || st.marks[g[st.stack.last().0][st.stack.last().1] as int] != 0,
    ensures
        dfs_inv(g, dfs_step(g, st)),
{
    let top = st.stack.len() - 1;
    let b = st.stack[top].0;
    let i = st.stack[top].1;
    let s = g[b][i] as int;
    let nx = dfs_step(g, st);
    assert(nx.stack[top] == (b, i + 1));
    assert(on_stack(st, b));
    assert forall|x: int| on_stack(st, x) == on_stack(nx, x) by {
        if on_stack(st, x) {
            let j = choose|j: int| 0 <= j < st.stack.len() && (#[trigger] st.stack[j]).0 == x;
            assert(nx.stack[j].0 == x);
        }
        if on_stack(nx, x) {
            let j = choose|j: int| 0 <= j < nx.stack.len() && (#[trigger] nx.stack[j]).0 == x;
            assert(st.stack[j].0 == x);
        }
    }
    assert forall|c: (int, int)| st.cut.contains(c) implies nx.cut.contains(c) by {
        let k = choose|k: int| 0 <= k < st.cut.len() && st.cut[k] == c;
        assert(nx.cut[k] == c);
    }
    if s < g.len() && st.marks[s] == 1 {
        assert(lists(g[b], s));
        let j = choose|j: int| 0 <= j < st.stack.len() && (#[trigger] st.stack[j]).0 == s;
        lemma_stack_path(g, st, j, top);
        assert(nx.cut[st.cut.len() as int] == (b, s));
        assert(nx.cut.contains((b, s)));
        assert forall|c: int| 0 <= c < nx.cut.len() implies edge(
            g,
            (#[trigger] nx.cut[c]).0,
            nx.cut[c].1,
        ) && reaches(g, nx.cut[c].1, nx.cut[c].0) && nx.marks[nx.cut[c].0] != 0 && nx.marks[nx.cut[c].1] != 0 by {
            if c < st.cut.len() {
                assert(st.cut[c] == nx.cut[c]);
            }
        }
    } else {
        assert(nx.cut == st.cut);
    }
    assert forall|i2: int, j2: int| 0 <= i2 < j2 < nx.stack.len() implies (#[trigger] nx.stack[i2]).0 != (
    #[trigger] nx.stack[j2]).0 by {
        assert(st.stack[i2].0 != st.stack[j2].0);
    }
    assert forall|j: int| 0 < j < nx.stack.len() implies #[trigger] linked(g, nx, j) by {
        assert(linked(g, st, j));
        assert(st.stack[j - 1].0 != st.stack[top].0);
        lemma_cut_push(st, nx, (b, s), (nx.stack[j - 1].0, nx.stack[j].0));
    }
    assert forall|p: int| 0 <= p < nx.order.len() && nx.order[p] != 0 implies #[trigger] entered(g, nx, p) by {
        assert(entered(g, st, p));
        let a = choose|a: int| #[trigger] entered_from(g, st, p, a);
        assert(st.order.contains(st.order[p]));
        assert(st.marks[st.order[p]] == 2);
        lemma_cut_push(st, nx, (b, s), (a, nx.order[p]));
        assert(entered_from(g, nx, p, a));
    }
    assert forall|j: int, i2: int|
        0 <= j < nx.stack.len() && 0 <= i2 < nx.stack[j].1 implies #[trigger] looked_at(g, nx, j, i2) by {
        if j < top {
            assert(st.stack[j] == nx.stack[j]);
            assert(looked_at(g, st, j, i2));
        } else if i2 < i {
            assert(st.stack[top].1 == i);
            assert(looked_at(g, st, top, i2));
        }
    }
    assert(inv_edges(g, nx));
    assert(inv_marks(g, nx));
    assert(inv_order(g, nx));
}

/// A step that leaves a block keeps the invariant.
proof fn lemma_pop_inv(g: Seq<Seq<u32>>, st: DfsV)
    requires
        dfs_inv(g, st),
        st.stack.len() > 0,
        st.stack.last().1 >= g[st.stack.last().0].len(),
    ensures
        dfs_inv(g, dfs_step(g, st)),
{
    let top = st.stack.len() - 1;
    let b = st.stack[top].0;
    let nx = dfs_step(g, st);
    let m = st.order.len() as int;
    assert(on_stack(st, b));
    assert(nx.order[m] == b);
    assert forall|x: int| 0 <= x < g.len() implies (#[trigger] nx.marks[x] == 1 <==> on_stack(nx, x)) by {
        if on_stack(st, x) && x != b {
            let j = choose|j: int| 0 <= j < st.stack.len() && (#[trigger] st.stack[j]).0 == x;
            assert(nx.stack[j].0 == x);
        }
        if on_stack(nx, x) {
            let j = choose|j: int| 0 <= j < nx.stack.len() && (#[trigger] nx.stack[j]).0 == x;
            assert(st.stack[j].0 == x);
            assert(st.stack[j].0 != st.stack[top].0);
        }
    }
    assert forall|x: int| 0 <= x < g.len() implies (#[trigger] nx.marks[x] == 2 <==> nx.order.contains(x)) by {
        if st.order.contains(x) {
            let q = choose|q: int| 0 <= q < st.order.len() && st.order[q] == x;
            assert(nx.order[q] == x);
        }
        if nx.order.contains(x) && x != b {
            let q = choose|q: int| 0 <= q < nx.order.len() && nx.order[q] == x;
            assert(st.order[q] == x);
        }
    }
    assert forall|p: int, q: int| 0 <= p < q < nx.order.len() implies #[trigger] nx.order[p]
        != #[trigger] nx.order[q] by {
        if q == m {
            assert(st.order.contains(st.order[p]));
            assert(st.marks[st.order[p]] == 2);
            assert(st.marks[b] == 1);
        }
    }
    assert forall|p: int| 0 <= p < nx.order.len() && nx.order[p] != 0 implies #[trigger] entered(g, nx, p) by {
        if p < m {
            assert(entered(g, st, p));
        let a = choose|a: int| #[trigger] entered_from(g, st, p, a);
            if st.marks[a] == 1 {
                if a == b {
                    assert(nx.order[m] == a);
                }
            } else {
                let q = choose|q: int| p < q < st.order.len() && #[trigger] st.order[q] == a;
                assert(nx.order[q] == a);
            }
            assert(entered_from(g, nx, p, a));
        } else {
            assert(top > 0);
            let below = st.stack[top - 1];
            assert(linked(g, st, top));
            assert(lists(g[below.0], b));
            assert(on_stack(st, below.0));
            assert(st.stack[top - 1].0 != st.stack[top].0);
            assert(st.marks[below.0] == 1);
            assert(entered_from(g, nx, p, below.0));
        }
    }
    assert forall|p: int, s: int|
        0 <= p < nx.order.len() && #[trigger] edge(g, #[trigger] nx.order[p], s) implies nx.cut.contains(
        (nx.order[p], s),
    ) || left_before(nx.order, s, p) by {
        if p < m {
            assert(edge(g, st.order[p], s));
            if !st.cut.contains((st.order[p], s)) {
                let q = choose|q: int| 0 <= q < p && q < st.order.len() && #[trigger] st.order[q] == s;
                assert(nx.order[q] == s);
            }
        } else {
            let i = choose|i: int| 0 <= i < g[b].len() && #[trigger] g[b][i] as int == s;
            assert(looked_at(g, st, top, i));
            assert(st.cut.contains((b, s)) || st.marks[s] == 2);
            if st.marks[s] == 2 {
                let q = choose|q: int| 0 <= q < st.order.len() && st.order[q] == s;
                assert(nx.order[q] == s);
            }
        }
    }
    assert forall|j: int, i2: int|
        0 <= j < nx.stack.len() && 0 <= i2 < nx.stack[j].1 implies #[trigger] looked_at(g, nx, j, i2) by {
        assert(st.stack[j] == nx.stack[j]);
        assert(looked_at(g, st, j, i2));
        if j + 1 == top && i2 == nx.stack[j].1 - 1 {
            assert(linked(g, st, j + 1));
        }
    }
    assert forall|j: int| 0 < j < nx.stack.len() implies #[trigger] linked(g, nx, j) by {
        assert(linked(g, st, j));
    }
    assert forall|i2: int, j2: int| 0 <= i2 < j2 < nx.stack.len() implies (#[trigger] nx.stack[i2]).0 != (
    #[trigger] nx.stack[j2]).0 by {
        assert(st.stack[i2].0 != st.stack[j2].0);
    }
    assert forall|x: int| 0 <= x < g.len() && #[trigger] nx.marks[x] != 0 implies reaches(g, 0, x) by {
        assert(st.marks[x] != 0);
    }
    assert(inv_marks(g, nx));
    assert(inv_stack(g, nx));
    assert(inv_edges(g, nx));
    assert(inv_order(g, nx));
}

/// Every step keeps the invariant.
proof fn lemma_step_inv(g: Seq<Seq<u32>>, st: DfsV)
    requires
        dfs_inv(g, st),
    ensures
        dfs_inv(g, dfs_step(g, st)),
{
    if st.stack.len() > 0 {
        let top = st.stack.len() - 1;
        assert(st.stack[top] == st.stack.last());
        let b = st.stack[top].0;
        let i = st.stack[top].1;
        if i < g[b].len() {
            let s = g[b][i] as int;
            if s < g.len() && st.marks[s] == 0 {
                lemma_push_inv(g, st);
            } else {
                lemma_look_inv(g, st);
            }
        } else {
            lemma_pop_inv(g, st);
        }
    }
}

/// The invariant holds throughout.
pub proof fn lemma_run_inv(g: Seq<Seq<u32>>, t: nat)
    ensures
        dfs_inv(g, dfs_run(g, t)),
    decreases t,
{
    if t == 0 {
        lemma_init_inv(g);
    } else {
        lemma_run_inv(g, (t - 1) as nat);
        lemma_step_inv(g, dfs_run(g, (t - 1) as nat));
    }
}

/// The number of zeros in `m`.
spec fn zeros(m: Seq<int>) -> nat
    decreases m.len(),
{
    if m.len() == 0 {
        0
    } else {
        zeros(m.drop_last()) + if m.last() == 0 { 1nat } else { 0nat }
    }
}

proof fn lemma_zeros_update(m: Seq<int>, i: int, v: int)
    requires
        0 <= i < m.len(),
        v != 0,
    ensures
        m[i] == 0 ==> zeros(m.update(i, v)) + 1 == zeros(m),
        m[i] != 0 ==> zeros(m.update(i, v)) == zeros(m),
    decreases m.len(),
{
    let t = m.update(i, v);
    if i == m.len() - 1 {
        assert(t.drop_last() =~= m.drop_last());
    } else {
        assert(t.drop_last() =~= m.drop_last().update(i, v));
        lemma_zeros_update(m.drop_last(), i, v);
    }
}

/// How many successors of the block on top of the stack are still to be looked at.
spec fn ahead(g: Seq<Seq<u32>>, st: DfsV) -> int {
    if st.stack.len() == 0 {
        0
    } else {
        g[st.stack.last().0].len() - st.stack.last().1
    }
}

proof fn lemma_ends_from(g: Seq<Seq<u32>>, t: nat)
    ensures
        exists|u: nat| (#[trigger] dfs_run(g, u)).stack.len() == 0,
    decreases
        zeros(dfs_run(g, t).marks),
        dfs_run(g, t).stack.len(),
        ahead(g, dfs_run(g, t)),
{
    let st = dfs_run(g, t);
    if st.stack.len() > 0 {
        let nx = dfs_run(g, t + 1);
        lemma_run_inv(g, t);
        lemma_run_inv(g, t + 1);
        let top = st.stack.len() - 1;
        let b = st.stack[top].0;
        let i = st.stack[top].1;
        assert(st.stack.last() == st.stack[top]);
        if i < g[b].len() {
            let s = g[b][i] as int;
            if s < g.len() && st.marks[s] == 0 {
                lemma_zeros_update(st.marks, s, 1);
            } else {
                assert(nx.stack.last() == (b, i + 1));
            }
        } else {
            assert(on_stack(st, b));
            lemma_zeros_update(st.marks, b, 2);
        }
        lemma_ends_from(g, t + 1);
    }
}

/// The search of any graph ends.
pub proof fn search_ends(g: Seq<Seq<u32>>)
    ensures
        exists|st: DfsV| #[trigger] dfs_final(g, st),
{
    lemma_ends_from(g, 0);
    let u = choose|u: nat| (#[trigger] dfs_run(g, u)).stack.len() == 0;
    assert(dfs_final(g, dfs_run(g, u)));
}

/// What a search found.
pub struct Dfs {
    /// The mark of each block: 0 not reached, 2 left.
    pub marks: Vec<u8>,
    /// The edges that lead back.
    pub cut: Vec<(usize, usize)>,
    /// The blocks in the order in which they were left.
    pub order: Vec<usize>,
}

/// The marks as integers.
pub open spec fn ints_u8(s: Seq<u8>) -> Seq<int> {
    Seq::new(s.len(), |i: int| s[i] as int)
}

/// Block indices as integers.
pub open spec fn ints(s: Seq<usize>) -> Seq<int> {
    Seq::new(s.len(), |i: int| s[i] as int)
}

/// Pairs of indices as pairs of integers.
pub open spec fn int_pairs(s: Seq<(usize, usize)>) -> Seq<(int, int)> {
    Seq::new(s.len(), |i: int| (s[i].0 as int, s[i].1 as int))
}

impl View for Dfs {
    type V = DfsV;

    open spec fn view(&self) -> DfsV {
        DfsV {
            marks: ints_u8(self.marks@),
            stack: Seq::empty(),
            cut: int_pairs(self.cut@),
            order: ints(self.order@),
        }
    }
}

/// Searches `g` depth first from node 0.
pub fn dfs(g: &Vec<Vec<u32>>) -> (r: Dfs)
    ensures
        dfs_final(adj(g@), r@),
        dfs_inv(adj(g@), r@),
        r.marks@.len() == g@.len(),
{
    let n = g.len();
    let ghost gg = adj(g@);
    let mut marks: Vec<u8> = Vec::new();
    let mut k: usize = 0;
    while k < n
        invariant
            k <= n,
            marks@.len() == k,
            forall|x: int| 0 <= x < k ==> #[trigger] marks@[x] == 0,
        decreases n - k,
    {
        marks.push(0);
        k += 1;
    }
    let mut stack: Vec<(usize, usize)> = Vec::new();
    let mut cut: Vec<(usize, usize)> = Vec::new();
    let mut order: Vec<usize> = Vec::new();
    if n > 0 {
        marks.set(0, 1);
        stack.push((0, 0));
    }
    let ghost mut t: nat = 0;
    let ghost mut st = dfs_init(gg.len());
    proof {
        assert(ints_u8(marks@) =~= st.marks);
        assert(int_pairs(stack@) =~= st.stack);
        assert(int_pairs(cut@) =~= st.cut);
        assert(ints(order@) =~= st.order);
        lemma_run_inv(gg, 0);
    }
    while stack.len() > 0
        invariant
            n == g@.len(),
            gg == adj(g@),
            gg.len() == n,
            marks@.len() == n,
            st == dfs_run(gg, t),
            dfs_inv(gg, st),
            ints_u8(marks@) == st.marks,
            int_pairs(stack@) == st.stack,
            int_pairs(cut@) == st.cut,
            ints(order@) == st.order,
        decreases
            zeros(st.marks),
            stack@.len(),
            g@[stack@.last().0 as int]@.len() - stack@.last().1,
    {
        let top = stack.len() - 1;
        let (b, i) = stack[top];
        let ghost stack0 = stack@;
        let ghost cut0 = cut@;
        let ghost order0 = order@;
        proof {
            assert(st.stack[top as int] == (b as int, i as int));
            assert(gg[b as int] == g@[b as int]@);
            lemma_run_inv(gg, t + 1);
        }
        if i < g[b].len() {
            let s = g[b][i] as usize;
            stack.set(top, (b, i + 1));
            assert(int_pairs(stack@) =~= st.stack.update(top as int, (b as int, i as int + 1)));
            if s < n {
                assert(st.marks[s as int] == marks@[s as int] as int);
                if marks[s] == 0 {
                    marks.set(s, 1);
                    stack.push((s, 0));
                    proof {
                        lemma_zeros_update(st.marks, s as int, 1);
                        assert(ints_u8(marks@) =~= st.marks.update(s as int, 1));
                        assert(int_pairs(stack@) =~= st.stack.update(
                            top as int,
                            (b as int, i as int + 1),
                        ).push((s as int, 0)));
                    }
                } else if marks[s] == 1 {
                    cut.push((b, s));
                    assert(int_pairs(cut@) =~= st.cut.push((b as int, s as int)));
                }
            }
        } else {
            marks.set(b, 2);
            let _ = stack.pop();
            order.push(b);
            proof {
                assert(on_stack(st, b as int));
                assert(st.marks[b as int] == 1);
                lemma_zeros_update(st.marks, b as int, 2);
                assert(ints_u8(marks@) =~= st.marks.update(b as int, 2));
                assert(int_pairs(stack@) =~= st.stack.drop_last());
                assert(ints(order@) =~= st.order.push(b as int));
            }
        }
        proof {
            let nx = dfs_step(gg, st);
            assert(ints_u8(marks@) == nx.marks);
            assert(int_pairs(stack@) == nx.stack);
            assert(int_pairs(cut@) == nx.cut);
            assert(ints(order@) == nx.order);
            st = nx;
            t = t + 1;
        }
    }
    let r = Dfs { marks, cut, order };
    proof {
        assert(st.stack =~= Seq::<(int, int)>::empty());
        assert(r@ == st);
        assert(dfs_run(gg, t) == r@);
    }
    r
}

/// The successors of `b` in `s` whose edges are not cut.
pub open spec fn uncut(s: Seq<u32>, b: int, cut: Seq<(int, int)>) -> Seq<u32> {
    s.filter(|x: u32| !cut.contains((b, x as int)))
}

/// The graph without the edges that the search `st` cut.
pub open spec fn cut_graph(g: Seq<Seq<u32>>, st: DfsV) -> Seq<Seq<u32>> {
    Seq::new(g.len(), |b: int| uncut(g[b], b, st.cut))
}

/// Whether no block that the entry reaches lies on a cycle.
pub open spec fn acyclic(g: Seq<Seq<u32>>) -> bool {
    forall|b: int| #![trigger reaches_plus(g, b, b)] reaches(g, 0, b) ==> !reaches_plus(g, b, b)
}

/// After the search, exactly the blocks that the entry reaches are marked, all of them left.
pub proof fn lemma_final_marks(g: Seq<Seq<u32>>, st: DfsV)
    requires
        dfs_inv(g, st),
        st.stack.len() == 0,
    ensures
        forall|x: int| 0 <= x < g.len() ==> (#[trigger] st.marks[x] != 0 <==> reaches(g, 0, x)),
        forall|x: int| 0 <= x < g.len() ==> (#[trigger] st.marks[x] != 0 <==> st.order.contains(x)),
{
    assert forall|x: int| 0 <= x < g.len() implies (#[trigger] st.marks[x] != 0 <==> reaches(g, 0, x)) by {
        if reaches(g, 0, x) {
            let k = choose|k: nat| #[trigger] reach_k(g, 0, x, k);
            lemma_marked_closed(g, st, x, k);
        }
    }
    assert forall|x: int| 0 <= x < g.len() implies (#[trigger] st.marks[x] != 0
        <==> st.order.contains(x)) by {
        if st.marks[x] == 1 {
            assert(on_stack(st, x));
        }
    }
}

proof fn lemma_marked_closed(g: Seq<Seq<u32>>, st: DfsV, x: int, k: nat)
    requires
        dfs_inv(g, st),
        st.stack.len() == 0,
        reach_k(g, 0, x, k),
    ensures
        st.marks[x] == 2,
    decreases k,
{
    lemma_reach_in_range(g, 0, x, k);
    if k == 0 {
        assert(st.marks[0] != 0);
        if st.marks[0] == 1 {
            assert(on_stack(st, 0));
        }
    } else {
        let m = choose|m: int| reach_k(g, 0, m, (k - 1) as nat) && #[trigger] edge(g, m, x);
        lemma_marked_closed(g, st, m, (k - 1) as nat);
        assert(st.order.contains(m));
        let p = choose|p: int| 0 <= p < st.order.len() && st.order[p] == m;
        assert(edge(g, st.order[p], x));
        if st.cut.contains((m, x)) {
            let c = choose|c: int| 0 <= c < st.cut.len() && st.cut[c] == (m, x);
            assert(st.marks[st.cut[c].1] != 0);
            if st.marks[x] == 1 {
                assert(on_stack(st, x));
            }
        } else {
            let q = choose|q: int| 0 <= q < p && q < st.order.len() && #[trigger] st.order[q] == x;
            assert(st.order.contains(x));
        }
    }
}

/// An edge is kept exactly if it is not cut.
pub proof fn lemma_cut_graph_edge(g: Seq<Seq<u32>>, st: DfsV, a: int, b: int)
    ensures
        edge(cut_graph(g, st), a, b) == (edge(g, a, b) && !st.cut.contains((a, b))),
{
    if 0 <= a < g.len() && 0 <= b < g.len() {
        let p = |x: u32| !st.cut.contains((a, x as int));
        let s = g[a];
        let f = s.filter(p);
        assert(cut_graph(g, st)[a] == f);
        broadcast use Seq::lemma_filter_contains_rev, Seq::lemma_filter_pred;
        if lists(f, b) {
            let j = choose|j: int| 0 <= j < f.len() && #[trigger] f[j] as int == b;
            s.lemma_filter_pred(p, j);
            assert(f.contains(f[j]));
            s.lemma_filter_contains_rev(p, f[j]);
            let i = choose|i: int| 0 <= i < s.len() && s[i] == f[j];
            assert(s[i] as int == b);
        }
        if lists(s, b) && !st.cut.contains((a, b)) {
            let i = choose|i: int| 0 <= i < s.len() && #[trigger] s[i] as int == b;
            s.lemma_filter_contains(p, i);
            let j = choose|j: int| 0 <= j < f.len() && f[j] == s[i];
            assert(f[j] as int == b);
        }
    }
}

/// Along a path of kept edges, blocks were left earlier and earlier.
proof fn lemma_left_earlier(g: Seq<Seq<u32>>, st: DfsV, p: int, b: int, k: nat)
    requires
        dfs_inv(g, st),
        0 <= p < st.order.len(),
        reach_k(cut_graph(g, st), st.order[p], b, k),
    ensures
        k == 0 ==> b == st.order[p],
        k > 0 ==> left_before(st.order, b, p),
    decreases k,
{
    let h = cut_graph(g, st);
    if k > 0 {
        let m = choose|m: int| reach_k(h, st.order[p], m, (k - 1) as nat) && #[trigger] edge(h, m, b);
        lemma_left_earlier(g, st, p, m, (k - 1) as nat);
        lemma_cut_graph_edge(g, st, m, b);
        let q = if k == 1 {
            p
        } else {
            choose|q: int| 0 <= q < p && q < st.order.len() && #[trigger] st.order[q] == m
        };
        assert(edge(g, st.order[q], b));
        assert(left_before(st.order, b, q));
        let r = choose|r: int| 0 <= r < q && r < st.order.len() && #[trigger] st.order[r] == b;
        assert(st.order[r] == b);
    }
}

/// Cutting the edges that lead back leaves no cycle within reach of the entry.
pub proof fn lemma_cut_acyclic(g: Seq<Seq<u32>>, st: DfsV)
    requires
        dfs_inv(g, st),
        st.stack.len() == 0,
    ensures
        acyclic(cut_graph(g, st)),
{
    let h = cut_graph(g, st);
    assert forall|b: int| #![trigger reaches_plus(h, b, b)] reaches(h, 0, b) implies !reaches_plus(
        h,
        b,
        b,
    ) by {
        if reaches_plus(h, b, b) {
            let k = choose|k: nat| k > 0 && #[trigger] reach_k(h, b, b, k);
            lemma_cut_reaches(g, st, b);
            lemma_final_marks(g, st);
            lemma_reach_in_range(h, b, b, k);
            assert(st.marks[b] != 0);
            let p = choose|p: int| 0 <= p < st.order.len() && st.order[p] == b;
            lemma_left_earlier(g, st, p, b, k);
            let q = choose|q: int| 0 <= q < p && q < st.order.len() && #[trigger] st.order[q] == b;
            assert(st.order[q] != st.order[p]);
        }
    }
}

proof fn lemma_sub_reach(g: Seq<Seq<u32>>, h: Seq<Seq<u32>>, a: int, b: int, k: nat)
    requires
        h.len() == g.len(),
        forall|x: int, y: int| #[trigger] edge(h, x, y) ==> edge(g, x, y),
        reach_k(h, a, b, k),
    ensures
        reach_k(g, a, b, k),
    decreases k,
{
    if k > 0 {
        let m = choose|m: int| reach_k(h, a, m, (k - 1) as nat) && #[trigger] edge(h, m, b);
        lemma_sub_reach(g, h, a, m, (k - 1) as nat);
        assert(edge(g, m, b));
    }
}

proof fn lemma_order_reached(g: Seq<Seq<u32>>, st: DfsV, p: int)
    requires
        dfs_inv(g, st),
        st.stack.len() == 0,
        0 <= p < st.order.len(),
    ensures
        reaches(cut_graph(g, st), 0, st.order[p]),
    decreases st.order.len() - p,
{
    let h = cut_graph(g, st);
    let x = st.order[p];
    if x == 0 {
        assert(reach_k(h, 0, 0, 0));
    } else {
        assert(entered(g, st, p));
        let a = choose|a: int| #[trigger] entered_from(g, st, p, a);
        if st.marks[a] == 1 {
            assert(on_stack(st, a));
        }
        let q = choose|q: int| p < q < st.order.len() && #[trigger] st.order[q] == a;
        lemma_order_reached(g, st, q);
        lemma_cut_graph_edge(g, st, a, x);
        lemma_reach_step(h, 0, a, x);
    }
}

/// Cutting the edges that lead back leaves the entry's reach as it was.
pub proof fn lemma_cut_reaches(g: Seq<Seq<u32>>, st: DfsV, b: int)
    requires
        dfs_inv(g, st),
        st.stack.len() == 0,
    ensures
        reaches(cut_graph(g, st), 0, b) == reaches(g, 0, b),
{
    let h = cut_graph(g, st);
    assert forall|x: int, y: int| #[trigger] edge(h, x, y) implies edge(g, x, y) by {
        lemma_cut_graph_edge(g, st, x, y);
    }
    if reaches(h, 0, b) {
        let k = choose|k: nat| #[trigger] reach_k(h, 0, b, k);
        lemma_sub_reach(g, h, 0, b, k);
    }
    if reaches(g, 0, b) {
        let k = choose|k: nat| #[trigger] reach_k(g, 0, b, k);
        lemma_reach_in_range(g, 0, b, k);
        lemma_final_marks(g, st);
        assert(st.marks[b] != 0);
        let p = choose|p: int| 0 <= p < st.order.len() && st.order[p] == b;
        lemma_order_reached(g, st, p);
    }
}

/// What cutting the back edges of `g` gives: `dag` is `g` without the edges that the search
/// cut, and `visited` marks the blocks that it reached.
pub open spec fn is_cut(g: Seq<Seq<u32>>, dag: Seq<Seq<u32>>, visited: Seq<bool>) -> bool {
    exists|st: DfsV| #[trigger]
        dfs_final(g, st) && dag == cut_graph(g, st) && visited =~= Seq::new(
            g.len(),
            |b: int| st.marks[b] != 0,
        )
}

/// Cutting the back edges has one result only.
pub proof fn is_cut_unique(
    g: Seq<Seq<u32>>,
    dag1: Seq<Seq<u32>>,
    visited1: Seq<bool>,
    dag2: Seq<Seq<u32>>,
    visited2: Seq<bool>,
)
    requires
        is_cut(g, dag1, visited1),
        is_cut(g, dag2, visited2),
    ensures
        dag1 == dag2,
        visited1 == visited2,
{
    let s = choose|st: DfsV| #[trigger]
        dfs_final(g, st) && dag1 == cut_graph(g, st) && visited1 =~= Seq::new(
            g.len(),
            |b: int| st.marks[b] != 0,
        );
    let t = choose|st: DfsV| #[trigger]
        dfs_final(g, st) && dag2 == cut_graph(g, st) && visited2 =~= Seq::new(
            g.len(),
            |b: int| st.marks[b] != 0,
        );
    dfs_final_unique(g, s, t);
}

fn pair_in(v: &Vec<(usize, usize)>, a: usize, b: usize) -> (r: bool)
    ensures
        r == int_pairs(v@).contains((a as int, b as int)),
{
    let mut i: usize = 0;
    while i < v.len()
        invariant
            i <= v@.len(),
            forall|j: int| 0 <= j < i ==> #[trigger] int_pairs(v@)[j] != (a as int, b as int),
        decreases v@.len() - i,
    {
        assert(int_pairs(v@)[i as int] == (v@[i as int].0 as int, v@[i as int].1 as int));
        if v[i].0 == a && v[i].1 == b {
            return true;
        }
        i += 1;
    }
    false
}

/// The control-flow graph with back edges cut, and which blocks the entry reaches.
///
/// An edge leads back if the depth-first search from the entry finds its target on the
/// stack. Blocks that the entry does not reach keep their edges.
pub fn cut_back_edges_visited(f: &Function) -> (r: (Vec<Vec<u32>>, Vec<bool>))
    ensures
        is_cut(succ_graph(f), adj(r.0@), r.1@),
        r.0@.len() == f.blocks@.len(),
        r.1@.len() == f.blocks@.len(),
        forall|b: int|
            0 <= b < f.blocks@.len() ==> (#[trigger] r.1@[b] == reaches(succ_graph(f), 0, b)),
        forall|b: int, s: int| #[trigger]
            edge(adj(r.0@), b, s) ==> edge(succ_graph(f), b, s),
        forall|b: int, s: int| #[trigger]
            edge(succ_graph(f), b, s) && !edge(adj(r.0@), b, s) ==> reaches(succ_graph(f), 0, b)
                && reaches(succ_graph(f), s, b),
        acyclic(adj(r.0@)),
        forall|b: int| #[trigger] reaches(adj(r.0@), 0, b) == reaches(succ_graph(f), 0, b),
{
    let lists_of = succ_lists(f);
    let found = dfs(&lists_of);
    let ghost g = succ_graph(f);
    let n = lists_of.len();
    assert(adj(lists_of@).len() == lists_of@.len());
    assert(g.len() == f.blocks@.len());
    let mut dag: Vec<Vec<u32>> = Vec::new();
    let mut visited: Vec<bool> = Vec::new();
    let mut b: usize = 0;
    while b < n
        invariant
            n == lists_of@.len(),
            b <= n,
            g == adj(lists_of@),
            found.marks@.len() == n,
            dag@.len() == b,
            visited@.len() == b,
            forall|x: int| 0 <= x < b ==> (#[trigger] dag@[x])@ == uncut(g[x], x, found@.cut),
            forall|x: int| 0 <= x < b ==> (#[trigger] visited@[x] == (found@.marks[x] != 0)),
        decreases n - b,
    {
        let src = &lists_of[b];
        let ghost p = |x: u32| !found@.cut.contains((b as int, x as int));
        let mut kept: Vec<u32> = Vec::new();
        let mut i: usize = 0;
        reveal(Seq::filter);
        assert(src@.take(0) =~= Seq::<u32>::empty());
        while i < src.len()
            invariant
                i <= src@.len(),
                p == (|x: u32| !found@.cut.contains((b as int, x as int))),
                kept@ == src@.take(i as int).filter(p),
            decreases src@.len() - i,
        {
            let x = src[i];
            assert(src@.take(i as int + 1).drop_last() =~= src@.take(i as int));
            assert(src@.take(i as int + 1).last() == x);
            reveal(Seq::filter);
            if !pair_in(&found.cut, b, x as usize) {
                kept.push(x);
            }
            i += 1;
        }
        assert(src@.take(src@.len() as int) =~= src@);
        dag.push(kept);
        visited.push(found.marks[b] != 0);
        b += 1;
    }
    proof {
        let st = found@;
        assert(adj(dag@) =~= cut_graph(g, st));
        assert(visited@ =~= Seq::new(g.len(), |b: int| st.marks[b] != 0));
        lemma_final_marks(g, st);
        lemma_cut_acyclic(g, st);
        assert forall|b: int, s: int| #[trigger] edge(adj(dag@), b, s) implies edge(g, b, s) by {
            lemma_cut_graph_edge(g, st, b, s);
        }
        assert forall|b: int, s: int| #[trigger]
            edge(g, b, s) && !edge(adj(dag@), b, s) implies reaches(g, 0, b) && reaches(g, s, b) by {
            lemma_cut_graph_edge(g, st, b, s);
            let c = choose|c: int| 0 <= c < st.cut.len() && st.cut[c] == (b, s);
            assert(st.marks[st.cut[c].0] != 0);
        }
        assert forall|b: int| #[trigger] reaches(adj(dag@), 0, b) == reaches(g, 0, b) by {
            lemma_cut_reaches(g, st, b);
        }
    }
    (dag, visited)
}

/// The control-flow graph with back edges cut.
pub fn cut_back_edges(f: &Function) -> (r: Vec<Vec<u32>>)
    ensures
        exists|visited: Seq<bool>| #[trigger] is_cut(succ_graph(f), adj(r@), visited),
        acyclic(adj(r@)),
        forall|b: int| #[trigger] reaches(adj(r@), 0, b) == reaches(succ_graph(f), 0, b),
        forall|b: int, s: int| #[trigger] edge(adj(r@), b, s) ==> edge(succ_graph(f), b, s),
        forall|b: int, s: int| #[trigger]
            edge(succ_graph(f), b, s) && !edge(adj(r@), b, s) ==> reaches(succ_graph(f), 0, b)
                && reaches(succ_graph(f), s, b),
{
    cut_back_edges_visited(f).0
}

/// Whether `order` is the reverse of the order in which the search of `g` leaves blocks.
pub open spec fn is_topo(g: Seq<Seq<u32>>, order: Seq<int>) -> bool {
    exists|st: DfsV| #[trigger] dfs_final(g, st) && order == st.order.reverse()
}

/// There is one such order only.
pub proof fn is_topo_unique(g: Seq<Seq<u32>>, a: Seq<int>, b: Seq<int>)
    requires
        is_topo(g, a),
        is_topo(g, b),
    ensures
        a == b,
{
    let s = choose|st: DfsV| #[trigger] dfs_final(g, st) && a == st.order.reverse();
    let t = choose|st: DfsV| #[trigger] dfs_final(g, st) && b == st.order.reverse();
    dfs_final_unique(g, s, t);
}

/// What holds of the order for every graph: it lists each block that the entry reaches once,
/// the entry first, and each other block after one with an edge to it.
pub open spec fn topo_shape(g: Seq<Seq<u32>>, order: Seq<int>) -> bool {
    &&& forall|i: int| 0 <= i < order.len() ==> 0 <= #[trigger] order[i] < g.len()
    &&& forall|i: int, j: int|
        0 <= i < j < order.len() ==> #[trigger] order[i] != #[trigger] order[j]
    &&& forall|b: int| #[trigger] order.contains(b) <==> reaches(g, 0, b)
    &&& g.len() > 0 ==> order.len() > 0 && order[0] == 0
    &&& forall|j: int| 0 < j < order.len() ==> #[trigger] has_earlier_pred(g, order, j)
}

/// An edge leads to the block at position `j` from one at an earlier position.
pub open spec fn has_earlier_pred(g: Seq<Seq<u32>>, order: Seq<int>, j: int) -> bool {
    exists|i: int| 0 <= i < j && #[trigger] edge(g, order[i], order[j])
}

proof fn lemma_topo_shape(g: Seq<Seq<u32>>, st: DfsV)
    requires
        dfs_inv(g, st),
        st.stack.len() == 0,
    ensures
        topo_shape(g, st.order.reverse()),
{
    let r = st.order.reverse();
    let m = st.order.len() as int;
    lemma_final_marks(g, st);
    assert forall|i: int| 0 <= i < r.len() implies 0 <= #[trigger] r[i] < g.len() by {
        assert(r[i] == st.order[m - 1 - i]);
    }
    assert forall|i: int, j: int| 0 <= i < j < r.len() implies #[trigger] r[i] != #[trigger] r[j] by {
        assert(st.order[m - 1 - i] != st.order[m - 1 - j]);
    }
    assert forall|b: int| #[trigger] r.contains(b) <==> reaches(g, 0, b) by {
        if r.contains(b) {
            let i = choose|i: int| 0 <= i < r.len() && r[i] == b;
            assert(st.order[m - 1 - i] == b);
            assert(st.order.contains(b));
            assert(st.marks[b] != 0);
        }
        if reaches(g, 0, b) {
            let k = choose|k: nat| #[trigger] reach_k(g, 0, b, k);
            lemma_reach_in_range(g, 0, b, k);
            assert(st.marks[b] != 0);
            let q = choose|q: int| 0 <= q < m && st.order[q] == b;
            assert(r[m - 1 - q] == b);
        }
    }
    assert forall|j: int| 0 <= j < r.len() && r[j] != 0 implies #[trigger] has_earlier_pred(g, r, j) by {
        let p = m - 1 - j;
        assert(st.order[p] == r[j]);
        assert(entered(g, st, p));
        let a = choose|a: int| #[trigger] entered_from(g, st, p, a);
        if st.marks[a] == 1 {
            assert(on_stack(st, a));
        }
        let q = choose|q: int| p < q < m && #[trigger] st.order[q] == a;
        assert(r[m - 1 - q] == a);
        assert(edge(g, r[m - 1 - q], r[j]));
    }
    if g.len() > 0 {
        assert(reach_k(g, 0, 0, 0));
        assert(r.contains(0));
        let i = choose|i: int| 0 <= i < r.len() && r[i] == 0;
        if r[0] != 0 {
            assert(has_earlier_pred(g, r, 0));
        }
        assert(r[0] == 0);
        assert forall|j: int| 0 < j < r.len() implies #[trigger] has_earlier_pred(g, r, j) by {
            assert(r[j] != r[0]);
        }
    } else {
        if m > 0 {
            assert(0 <= st.order[0] < g.len());
        }
    }
}

/// In a graph without cycles in reach of the entry, edges lead forward in the order.
pub open spec fn edges_forward(g: Seq<Seq<u32>>, order: Seq<int>) -> bool {
    forall|i: int, j: int|
        0 <= i < order.len() && 0 <= j < order.len() && #[trigger] edge(g, order[i], order[j])
            ==> i < j
}

proof fn lemma_topo_forward(g: Seq<Seq<u32>>, st: DfsV)
    requires
        dfs_inv(g, st),
        st.stack.len() == 0,
        acyclic(g),
    ensures
        edges_forward(g, st.order.reverse()),
{
    let r = st.order.reverse();
    let m = st.order.len() as int;
    lemma_final_marks(g, st);
    assert forall|i: int, j: int|
        0 <= i < r.len() && 0 <= j < r.len() && #[trigger] edge(g, r[i], r[j]) implies i < j by {
        let p = m - 1 - i;
        assert(st.order[p] == r[i]);
        assert(edge(g, st.order[p], r[j]));
        if st.cut.contains((r[i], r[j])) {
            let c = choose|c: int| 0 <= c < st.cut.len() && st.cut[c] == (r[i], r[j]);
            assert(st.marks[st.cut[c].0] != 0);
            assert(reaches(g, 0, r[i]));
            let k = choose|k: nat| #[trigger] reach_k(g, r[j], r[i], k);
            lemma_edge_reach(g, r[i], r[j]);
            lemma_reach_compose(g, r[i], r[j], r[i], 1, k);
            assert(reach_k(g, r[i], r[i], 1 + k));
            assert(reaches_plus(g, r[i], r[i]));
        } else {
            let q = choose|q: int| 0 <= q < p && q < m && #[trigger] st.order[q] == r[j];
            assert(r[m - 1 - q] == r[j]);
            assert(st.order[m - 1 - j] == r[j]);
            if q != m - 1 - j {
                if q < m - 1 - j {
                    assert(st.order[q] != st.order[m - 1 - j]);
                } else {
                    assert(st.order[m - 1 - j] != st.order[q]);
                }
            }
        }
    }
}

/// The blocks that the entry reaches, each before the blocks that it is left after: in a graph
/// without cycles a topological order.
pub fn topo_order(dag: &Vec<Vec<u32>>) -> (r: Vec<usize>)
    ensures
        is_topo(adj(dag@), ints(r@)),
        topo_shape(adj(dag@), ints(r@)),
        acyclic(adj(dag@)) ==> edges_forward(adj(dag@), ints(r@)),
{
    let found = dfs(dag);
    let ghost g = adj(dag@);
    let m = found.order.len();
    let mut out: Vec<usize> = Vec::new();
    let mut i: usize = 0;
    while i < m
        invariant
            m == found.order@.len(),
            i <= m,
            out@.len() == i,
            forall|j: int| 0 <= j < i ==> #[trigger] out@[j] == found.order@[m - 1 - j],
        decreases m - i,
    {
        out.push(found.order[m - 1 - i]);
        i += 1;
    }
    proof {
        assert(ints(out@) =~= found@.order.reverse());
        lemma_topo_shape(g, found@);
        if acyclic(g) {
            lemma_topo_forward(g, found@);
        }
    }
    out
}

} // verus!
