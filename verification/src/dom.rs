//! Immediate dominators over a control-flow graph.

use vstd::prelude::*;
use crate::dfs::{acyclic, edges_forward, ints, is_topo, topo_order, topo_shape};
use crate::graph::{
    adj, edge, has_pred, lists, lemma_reach_in_range, lemma_reach_step, reach_k, reaches,
};

verus! {

/// Whether a path of `k` edges leads from the entry to `b` without visiting `x`.
pub open spec fn avoids(g: Seq<Seq<u32>>, x: int, b: int, k: nat) -> bool
    decreases k,
{
    if k == 0 {
        b == 0 && x != 0 && 0 < g.len()
    } else {
        b != x && exists|a: int| avoids(g, x, a, (k - 1) as nat) && #[trigger] edge(g, a, b)
    }
}

/// Whether every path from the entry to `b` visits `x`.
pub open spec fn dominates(g: Seq<Seq<u32>>, x: int, b: int) -> bool {
    forall|k: nat| !#[trigger] avoids(g, x, b, k)
}

/// Whether `a` comes before `b` in `order`.
pub open spec fn ordered(order: Seq<int>, a: int, b: int) -> bool {
    exists|i: int, j: int|
        0 <= i < j < order.len() && #[trigger] order[i] == a && #[trigger] order[j] == b
}

/// The graph of the edges of `g` that lead forward in `order`.
pub open spec fn forward_graph(g: Seq<Seq<u32>>, order: Seq<int>) -> Seq<Seq<u32>> {
    Seq::new(g.len(), |a: int| g[a].filter(|s: u32| ordered(order, a, s as int)))
}

proof fn lemma_forward_edge(g: Seq<Seq<u32>>, order: Seq<int>, a: int, b: int)
    ensures
        edge(forward_graph(g, order), a, b) == (edge(g, a, b) && ordered(order, a, b)),
{
    if 0 <= a < g.len() && 0 <= b < g.len() {
        let p = |s: u32| ordered(order, a, s as int);
        let s = g[a];
        let f = s.filter(p);
        assert(forward_graph(g, order)[a] == f);
        broadcast use Seq::lemma_filter_contains_rev, Seq::lemma_filter_pred;
        if lists(f, b) {
            let j = choose|j: int| 0 <= j < f.len() && #[trigger] f[j] as int == b;
            s.lemma_filter_pred(p, j);
            assert(f.contains(f[j]));
            s.lemma_filter_contains_rev(p, f[j]);
            let i = choose|i: int| 0 <= i < s.len() && s[i] == f[j];
            assert(s[i] as int == b);
        }
        if lists(s, b) && ordered(order, a, b) {
            let i = choose|i: int| 0 <= i < s.len() && #[trigger] s[i] as int == b;
            s.lemma_filter_contains(p, i);
            let j = choose|j: int| 0 <= j < f.len() && f[j] == s[i];
            assert(f[j] as int == b);
        }
    }
}

/// Whether `idom` holds the immediate dominators of `g`: of a block that the entry reaches the
/// dominator that all its other dominators dominate, of any other block nothing. The entry
/// stands for its own.
pub open spec fn is_idom(g: Seq<Seq<u32>>, idom: Seq<Option<usize>>) -> bool {
    &&& idom.len() == g.len()
    &&& forall|b: int| 0 <= b < g.len() ==> ((#[trigger] idom[b]) is Some <==> reaches(g, 0, b))
    &&& g.len() > 0 ==> idom[0] == Some(0usize)
    &&& forall|b: int|
        0 < b < g.len() && (#[trigger] idom[b]) is Some ==> immediate(g, idom[b].unwrap() as int, b)
}

/// Whether `d` is the immediate dominator of `b`.
pub open spec fn immediate(g: Seq<Seq<u32>>, d: int, b: int) -> bool {
    &&& 0 <= d < g.len()
    &&& d != b
    &&& dominates(g, d, b)
    &&& forall|x: int| x != b && #[trigger] dominates(g, x, b) ==> dominates(g, x, d)
}

/// Whether `a` is found by following `idom` from `cur` for at most `steps` links.
pub open spec fn on_chain(idom: Seq<Option<usize>>, a: int, cur: int, steps: nat) -> bool
    decreases steps,
{
    steps > 0 && 0 <= cur < idom.len() && match idom[cur] {
        Some(d) => d == a || (d != cur && on_chain(idom, a, d as int, (steps - 1) as nat)),
        None => false,
    }
}

/// Whether `a` differs from `b` and lies on the chain of immediate dominators of `b`.
pub open spec fn strict(idom: Seq<Option<usize>>, a: int, b: int) -> bool {
    a != b && on_chain(idom, a, b, idom.len())
}

/// True iff `a` strictly dominates `b`: they differ and `a` is on the chain of `b`. A missing
/// link is "don't know".
pub fn strictly_dominates(idom: &Vec<Option<usize>>, a: usize, b: usize) -> (r: bool)
    ensures
        r == strict(idom@, a as int, b as int),
{
    if a == b {
        return false;
    }
    let mut cur = b;
    let mut left: usize = idom.len();
    while left > 0
        invariant
            on_chain(idom@, a as int, b as int, idom@.len()) == on_chain(
                idom@,
                a as int,
                cur as int,
                left as nat,
            ),
            a != b,
        decreases left,
    {
        if cur >= idom.len() {
            return false;
        }
        match idom[cur] {
            Some(d) => {
                if d == a {
                    return true;
                }
                if d == cur {
                    return false;
                }
                cur = d;
            },
            None => {
                return false;
            },
        }
        left -= 1;
    }
    false
}

/// Whether `x` is `b` or found by following `idom` from `b` to ever smaller positions.
spec fn anc(idom: Seq<Option<usize>>, pos: Seq<int>, x: int, b: int) -> bool
    decreases pos[b],
{
    x == b || (0 <= b < idom.len() && idom[b] is Some && 0 <= pos[idom[b].unwrap() as int] < pos[b]
        && anc(idom, pos, x, idom[b].unwrap() as int))
}

/// The state of the computation after the first `t` blocks of the order.
spec fn dom_inv(
    g: Seq<Seq<u32>>,
    order: Seq<int>,
    pos: Seq<int>,
    idom: Seq<Option<usize>>,
    t: int,
) -> bool {
    &&& idom.len() == g.len()
    &&& pos.len() == g.len()
    &&& 0 < t <= order.len()
    &&& topo_shape(g, order)
    &&& forall|j: int| 0 <= j < order.len() ==> pos[#[trigger] order[j]] == j
    &&& forall|b: int|
        0 <= b < g.len() && #[trigger] pos[b] >= 0 ==> pos[b] < order.len() && order[pos[b]] == b
    &&& forall|b: int|
        0 <= b < g.len() ==> ((#[trigger] idom[b]) is Some <==> 0 <= pos[b] < t)
    &&& idom[0] == Some(0usize)
    &&& forall|b: int|
        0 <= b < g.len() && 0 < pos[b] < t ==> 0 <= pos[(#[trigger] idom[b]).unwrap() as int] < pos[b]
            && idom[b].unwrap() < g.len()
    &&& forall|b: int, x: int|
        0 <= b < g.len() && 0 <= pos[b] < t ==> (#[trigger] anc(idom, pos, x, b) == dominates(
            forward_graph(g, order),
            x,
            b,
        ))
}

/// Ancestors come no later.
proof fn lemma_anc_pos(idom: Seq<Option<usize>>, pos: Seq<int>, x: int, b: int)
    requires
        anc(idom, pos, x, b),
    ensures
        pos[x] <= pos[b],
    decreases pos[b],
{
    if x != b {
        lemma_anc_pos(idom, pos, x, idom[b].unwrap() as int);
    }
}

/// Setting a later entry changes no ancestors.
proof fn lemma_anc_frame(
    idom: Seq<Option<usize>>,
    pos: Seq<int>,
    x: int,
    b: int,
    c: int,
    v: Option<usize>,
)
    requires
        0 <= c < idom.len(),
        0 <= b < idom.len(),
        pos[b] < pos[c],
        forall|y: int|
            0 <= y < idom.len() && (#[trigger] idom[y]) is Some ==> idom[y].unwrap() < idom.len(),
    ensures
        anc(idom.update(c, v), pos, x, b) == anc(idom, pos, x, b),
    decreases pos[b],
{
    let nx = idom.update(c, v);
    assert(b != c);
    assert(nx[b] == idom[b]);
    if x != b && idom[b] is Some && 0 <= pos[idom[b].unwrap() as int] < pos[b] {
        lemma_anc_frame(idom, pos, x, idom[b].unwrap() as int, c, v);
    }
}

proof fn lemma_dom_self(g: Seq<Seq<u32>>, b: int)
    ensures
        dominates(g, b, b),
{
}

proof fn lemma_dom_entry(g: Seq<Seq<u32>>, x: int)
    requires
        g.len() > 0,
    ensures
        dominates(g, x, 0) == (x == 0),
{
    if x != 0 {
        assert(avoids(g, x, 0, 0));
    }
}

/// A block other than the entry is dominated by what dominates all blocks before it.
proof fn lemma_dom_step(g: Seq<Seq<u32>>, x: int, b: int)
    requires
        b != 0,
        x != b,
    ensures
        dominates(g, x, b) == (forall|a: int| #[trigger] edge(g, a, b) ==> dominates(g, x, a)),
{
    if dominates(g, x, b) {
        assert forall|a: int| #[trigger] edge(g, a, b) implies dominates(g, x, a) by {
            assert forall|k: nat| !#[trigger] avoids(g, x, a, k) by {
                if avoids(g, x, a, k) {
                    assert(avoids(g, x, b, k + 1));
                }
            }
        }
    }
    if forall|a: int| #[trigger] edge(g, a, b) ==> dominates(g, x, a) {
        assert forall|k: nat| !#[trigger] avoids(g, x, b, k) by {
            if avoids(g, x, b, k) {
                assert(k > 0);
                let a = choose|a: int| avoids(g, x, a, (k - 1) as nat) && #[trigger] edge(g, a, b);
                assert(dominates(g, x, a));
            }
        }
    }
}

/// The nearest common block of two chains, found by walking up from whichever block comes
/// later.
fn intersect(
    idom: &Vec<Option<usize>>,
    pos: &Vec<usize>,
    a: usize,
    b: usize,
    Ghost(g): Ghost<Seq<Seq<u32>>>,
    Ghost(order): Ghost<Seq<int>>,
    Ghost(t): Ghost<int>,
) -> (r: usize)
    requires
        dom_inv(g, order, positions(pos@, order.len() as int), idom@, t),
        pos@.len() == g.len(),
        order.len() <= g.len(),
        a < g.len(),
        b < g.len(),
        idom@[a as int] is Some,
        idom@[b as int] is Some,
    ensures
        r < g.len(),
        idom@[r as int] is Some,
        forall|x: int|
            #![trigger anc(idom@, positions(pos@, order.len() as int), x, r as int)]
            anc(idom@, positions(pos@, order.len() as int), x, r as int) == (anc(
                idom@,
                positions(pos@, order.len() as int),
                x,
                a as int,
            ) && anc(idom@, positions(pos@, order.len() as int), x, b as int)),
{
    let ghost pp = positions(pos@, order.len() as int);
    let mut u = a;
    let mut v = b;
    while u != v
        invariant
            pp == positions(pos@, order.len() as int),
            dom_inv(g, order, pp, idom@, t),
            pos@.len() == g.len(),
            order.len() <= g.len(),
            u < g.len(),
            v < g.len(),
            idom@[u as int] is Some,
            idom@[v as int] is Some,
            forall|x: int|
                #![trigger anc(idom@, pp, x, a as int)]
                #![trigger anc(idom@, pp, x, u as int)]
                (anc(idom@, pp, x, a as int) && anc(idom@, pp, x, b as int)) == (anc(
                    idom@,
                    pp,
                    x,
                    u as int,
                ) && anc(idom@, pp, x, v as int)),
        decreases pp[u as int] + pp[v as int],
    {
        let ghost u0 = u;
        let ghost v0 = v;
        proof {
            assert(order[pp[u as int]] == u as int);
            assert(order[pp[v as int]] == v as int);
        }
        if pos[u] > pos[v] {
            let d = idom[u].unwrap();
            u = d;
            proof {
                assert(pp[u0 as int] > pp[v0 as int]);
                assert forall|x: int|
                    #![trigger anc(idom@, pp, x, a as int)]
                    #![trigger anc(idom@, pp, x, u as int)]
                    (anc(idom@, pp, x, a as int) && anc(idom@, pp, x, b as int)) == (anc(
                        idom@,
                        pp,
                        x,
                        u as int,
                    ) && anc(idom@, pp, x, v as int)) by {
                    if anc(idom@, pp, x, v as int) {
                        lemma_anc_pos(idom@, pp, x, v as int);
                    }
                    assert(anc(idom@, pp, x, u0 as int) == (x == u0 || anc(idom@, pp, x, u as int)));
                }
            }
        } else {
            let d = idom[v].unwrap();
            v = d;
            proof {
                assert(pp[v0 as int] > pp[u0 as int]);
                assert forall|x: int|
                    #![trigger anc(idom@, pp, x, a as int)]
                    #![trigger anc(idom@, pp, x, u as int)]
                    (anc(idom@, pp, x, a as int) && anc(idom@, pp, x, b as int)) == (anc(
                        idom@,
                        pp,
                        x,
                        u as int,
                    ) && anc(idom@, pp, x, v as int)) by {
                    if anc(idom@, pp, x, u as int) {
                        lemma_anc_pos(idom@, pp, x, u as int);
                    }
                    assert(anc(idom@, pp, x, v0 as int) == (x == v0 || anc(idom@, pp, x, v as int)));
                }
            }
        }
    }
    u
}

/// The position of each block, or -1 for a block with none.
spec fn positions(pos: Seq<usize>, m: int) -> Seq<int> {
    Seq::new(pos.len(), |b: int| if pos[b] < m { pos[b] as int } else { -1int })
}

/// The blocks with an edge to each block.
fn pred_lists(g: &Vec<Vec<u32>>) -> (r: Vec<Vec<usize>>)
    ensures
        r@.len() == g@.len(),
        forall|x: int, a: int|
            0 <= x < g@.len() ==> (#[trigger] has_pred(r@[x]@, a) == edge(adj(g@), a, x)),
{
    let n = g.len();
    let ghost gg = adj(g@);
    let mut out: Vec<Vec<usize>> = Vec::new();
    let mut i: usize = 0;
    while i < n
        invariant
            i <= n,
            out@.len() == i,
            forall|x: int| 0 <= x < i ==> (#[trigger] out@[x])@.len() == 0,
        decreases n - i,
    {
        out.push(Vec::new());
        i += 1;
    }
    let mut b: usize = 0;
    while b < n
        invariant
            n == g@.len(),
            gg == adj(g@),
            b <= n,
            out@.len() == n,
            forall|x: int, a: int|
                0 <= x < n ==> (#[trigger] has_pred(out@[x]@, a) == (a < b && edge(gg, a, x))),
        decreases n - b,
    {
        let mut j: usize = 0;
        let m = g[b].len();
        while j < m
            invariant
                n == g@.len(),
                gg == adj(g@),
                b < n,
                m == g@[b as int]@.len(),
                j <= m,
                out@.len() == n,
                forall|x: int, a: int|
                    0 <= x < n ==> (#[trigger] has_pred(out@[x]@, a) == ((a < b && edge(gg, a, x))
                        || (a == b && lists(g@[b as int]@.take(j as int), x)))),
            decreases m - j,
        {
            let s = g[b][j] as usize;
            let ghost before = out@;
            let ghost t0 = g@[b as int]@.take(j as int);
            let ghost t1 = g@[b as int]@.take(j as int + 1);
            if s < n {
                out[s].push(b);
            }
            proof {
                assert forall|x: int, a: int| 0 <= x < n implies (#[trigger] has_pred(out@[x]@, a) == ((a
                    < b && edge(gg, a, x)) || (a == b && lists(t1, x)))) by {
                    assert(lists(t1, x) == (lists(t0, x) || x == s)) by {
                        if lists(t0, x) {
                            let q = choose|q: int| 0 <= q < t0.len() && #[trigger] t0[q] as int == x;
                            assert(t1[q] as int == x);
                        }
                        if x == s {
                            assert(t1[j as int] as int == x);
                        }
                        if lists(t1, x) {
                            let q = choose|q: int| 0 <= q < t1.len() && #[trigger] t1[q] as int == x;
                            if q < j {
                                assert(t0[q] as int == x);
                            }
                        }
                    }
                    assert(has_pred(before[x]@, a) == ((a < b && edge(gg, a, x)) || (a == b && lists(
                        t0,
                        x,
                    ))));
                    if x == s {
                        assert(out@[x]@ == before[x]@.push(b));
                        if has_pred(before[x]@, a) {
                            let q = choose|q: int|
                                0 <= q < before[x]@.len() && #[trigger] before[x]@[q] as int == a;
                            assert(out@[x]@[q] as int == a);
                        }
                        if a == b {
                            assert(out@[x]@[before[x]@.len() as int] as int == a);
                        }
                        if has_pred(out@[x]@, a) {
                            let q = choose|q: int|
                                0 <= q < out@[x]@.len() && #[trigger] out@[x]@[q] as int == a;
                            if q < before[x]@.len() {
                                assert(before[x]@[q] as int == a);
                            }
                        }
                    } else {
                        assert(out@[x] == before[x]);
                    }
                }
            }
            j += 1;
        }
        proof {
            assert(g@[b as int]@.take(m as int) =~= g@[b as int]@);
            assert(gg[b as int] == g@[b as int]@);
        }
        b += 1;
    }
    out
}

/// The chain test agrees with the ancestors.
proof fn lemma_chain(
    g: Seq<Seq<u32>>,
    order: Seq<int>,
    pos: Seq<int>,
    idom: Seq<Option<usize>>,
    a: int,
    b: int,
    steps: nat,
)
    requires
        dom_inv(g, order, pos, idom, order.len() as int),
        0 <= b < g.len(),
        0 < pos[b] <= steps,
    ensures
        on_chain(idom, a, b, steps) == anc(idom, pos, a, idom[b].unwrap() as int),
    decreases pos[b],
{
    assert(order[pos[b]] == b);
    let d = idom[b].unwrap() as int;
    assert(pos[d] < pos[b]);
    if d != a {
        assert(order[pos[d]] == d);
        if pos[d] > 0 {
            lemma_chain(g, order, pos, idom, a, d, (steps - 1) as nat);
        } else {
            assert(order[0] == 0);
            assert(d == 0);
            reveal_with_fuel(on_chain, 3);
            assert(!on_chain(idom, a, d, (steps - 1) as nat));
            assert(!anc(idom, pos, a, d));
        }
    }
}

/// The immediate dominator of each block, over the edges that lead forward in the
/// topological order. In a graph without cycles these are all edges within reach.
pub fn dominators(dag_succs: &Vec<Vec<u32>>) -> (r: Vec<Option<usize>>)
    ensures
        r@.len() == dag_succs@.len(),
        exists|order: Seq<int>| #[trigger]
            is_topo(adj(dag_succs@), order) && is_idom(forward_graph(adj(dag_succs@), order), r@)
                && forall|a: int, b: int|
                0 <= b < r@.len() ==> (#[trigger] strict(r@, a, b) == (a != b && reaches(
                    forward_graph(adj(dag_succs@), order),
                    0,
                    b,
                ) && dominates(forward_graph(adj(dag_succs@), order), a, b))),
        acyclic(adj(dag_succs@)) ==> is_idom(adj(dag_succs@), r@),
        acyclic(adj(dag_succs@)) ==> forall|a: int, b: int|
            0 <= b < r@.len() ==> (#[trigger] strict(r@, a, b) == (a != b && reaches(
                adj(dag_succs@),
                0,
                b,
            ) && dominates(adj(dag_succs@), a, b))),
{
    let n = dag_succs.len();
    let ghost g = adj(dag_succs@);
    let order_v = topo_order(dag_succs);
    let ghost order = ints(order_v@);
    let m = order_v.len();
    let preds = pred_lists(dag_succs);
    let mut idom: Vec<Option<usize>> = Vec::new();
    let mut pos: Vec<usize> = Vec::new();
    let mut i: usize = 0;
    while i < n
        invariant
            i <= n,
            idom@.len() == i,
            pos@.len() == i,
            forall|b: int| 0 <= b < i ==> (#[trigger] idom@[b]) is None,
            forall|b: int| 0 <= b < i ==> #[trigger] pos@[b] == m,
        decreases n - i,
    {
        idom.push(None);
        pos.push(m);
        i += 1;
    }
    let ghost f = forward_graph(g, order);
    if n == 0 {
        proof {
            assert(is_idom(f, idom@));
            assert(is_idom(g, idom@));
        }
        return idom;
    }
    proof {
        lemma_distinct_len(order, n as int);
    }
    let mut j: usize = 0;
    while j < m
        invariant
            n == dag_succs@.len(),
            g == adj(dag_succs@),
            g.len() == n,
            m == order_v@.len(),
            order == ints(order_v@),
            topo_shape(g, order),
            j <= m,
            pos@.len() == n,
            forall|k: int| 0 <= k < j ==> pos@[#[trigger] order_v@[k] as int] == k,
            forall|b: int|
                0 <= b < n && #[trigger] pos@[b] != m ==> pos@[b] < j && order_v@[pos@[b] as int]
                    == b,
        decreases m - j,
    {
        assert(order[j as int] == order_v@[j as int] as int);
        let b = order_v[j];
        let ghost before = pos@;
        pos.set(b, j);
        proof {
            assert forall|k: int| 0 <= k < j + 1 implies pos@[#[trigger] order_v@[k] as int] == k by {
                if k < j {
                    assert(order[k] != order[j as int]);
                }
            }
        }
        j += 1;
    }
    let ghost pp = positions(pos@, order.len() as int);
    idom.set(0, Some(0));
    proof {
        assert(order[0] == 0);
        assert(order_v@[0] == 0);
        assert(pp[0] == 0);
        assert forall|j: int| 0 <= j < order.len() implies pp[#[trigger] order[j]] == j by {
            assert(pos@[order_v@[j] as int] == j);
        }
        assert forall|b: int| 0 <= b < g.len() && #[trigger] pp[b] >= 0 implies pp[b] < order.len()
            && order[pp[b]] == b by {
            assert(order_v@[pos@[b] as int] == b);
        }
        assert forall|b: int, x: int| 0 <= b < g.len() && 0 <= pp[b] < 1 implies (#[trigger] anc(
            idom@,
            pp,
            x,
            b,
        ) == dominates(f, x, b)) by {
            assert(order[pp[b]] == b);
            assert(b == 0);
            lemma_dom_entry(f, x);
        }
        assert(dom_inv(g, order, pp, idom@, 1));
    }
    let mut t: usize = 1;
    while t < m
        invariant
            n == dag_succs@.len(),
            g == adj(dag_succs@),
            g.len() == n,
            f == forward_graph(g, order),
            m == order_v@.len(),
            m <= n,
            order == ints(order_v@),
            pos@.len() == n,
            pp == positions(pos@, order.len() as int),
            1 <= t <= m,
            preds@.len() == n,
            forall|x: int, a: int|
                0 <= x < n ==> (#[trigger] has_pred(preds@[x]@, a) == edge(g, a, x)),
            dom_inv(g, order, pp, idom@, t as int),
        decreases m - t,
    {
        assert(order[t as int] == order_v@[t as int] as int);
        let b = order_v[t];
        assert(pp[order[t as int]] == t);
        let ps = &preds[b];
        let mut new: Option<usize> = None;
        let mut k: usize = 0;
        while k < ps.len()
            invariant
                k <= ps@.len(),
                b < n,
                g.len() == n,
                pp[b as int] == t,
                m == order.len(),
                m <= n,
                pos@.len() == n,
                pp == positions(pos@, order.len() as int),
                dom_inv(g, order, pp, idom@, t as int),
                forall|a: int| #[trigger] has_pred(ps@, a) == edge(g, a, b as int),
                new is Some <==> exists|q: int|
                    0 <= q < k && idom@[#[trigger] ps@[q] as int] is Some,
                new is Some ==> new.unwrap() < n && idom@[new.unwrap() as int] is Some,
                new is Some ==> forall|x: int|
                    #![trigger anc(idom@, pp, x, new.unwrap() as int)]
                    anc(idom@, pp, x, new.unwrap() as int) == (forall|q: int|
                        0 <= q < k && idom@[#[trigger] ps@[q] as int] is Some ==> anc(
                            idom@,
                            pp,
                            x,
                            ps@[q] as int,
                        )),
            decreases ps@.len() - k,
        {
            let pd = ps[k];
            proof {
                assert(has_pred(ps@, pd as int));
                assert(edge(g, pd as int, b as int));
            }
            let ghost old_new = new;
            if idom[pd].is_some() {
                new = match new {
                    None => Some(pd),
                    Some(cur) => Some(
                        intersect(&idom, &pos, cur, pd, Ghost(g), Ghost(order), Ghost(t as int)),
                    ),
                };
            }
            proof {
                if new is Some {
                    assert forall|x: int|
                        #![trigger anc(idom@, pp, x, new.unwrap() as int)]
                        anc(idom@, pp, x, new.unwrap() as int) == (forall|q: int|
                            0 <= q < k + 1 && idom@[#[trigger] ps@[q] as int] is Some ==> anc(
                                idom@,
                                pp,
                                x,
                                ps@[q] as int,
                            )) by {
                        if old_new is Some {
                            assert(anc(idom@, pp, x, old_new.unwrap() as int) == (forall|q: int|
                                0 <= q < k && idom@[#[trigger] ps@[q] as int] is Some ==> anc(
                                    idom@,
                                    pp,
                                    x,
                                    ps@[q] as int,
                                )));
                        }
                        if idom@[pd as int] is Some {
                            assert(ps@[k as int] == pd);
                        }
                    }
                }
                if idom@[pd as int] is Some {
                    assert(ps@[k as int] == pd);
                }
            }
            k += 1;
        }
        let ghost before = idom@;
        idom.set(b, new);
        proof {
            lemma_place(g, order, pp, before, idom@, t as int, b as int, new, ps@);
        }
        t += 1;
    }
    proof {
        lemma_finish(g, order, pp, idom@);
    }
    idom
}

/// A sequence of distinct numbers below `n` has at most `n` entries.
proof fn lemma_distinct_len(s: Seq<int>, n: int)
    requires
        n >= 0,
        forall|i: int| 0 <= i < s.len() ==> 0 <= #[trigger] s[i] < n,
        forall|i: int, j: int| 0 <= i < j < s.len() ==> #[trigger] s[i] != #[trigger] s[j],
    ensures
        s.len() <= n,
{
    let all = vstd::set_lib::set_int_range(0, n);
    vstd::set_lib::lemma_int_range(0, n);
    assert(s.no_duplicates());
    s.unique_seq_to_set();
    assert(s.to_set().subset_of(all)) by {
        assert forall|x: int| s.to_set().contains(x) implies all.contains(x) by {
            let i = choose|i: int| 0 <= i < s.len() && s[i] == x;
            assert(0 <= s[i] < n);
        }
    }
    vstd::set_lib::lemma_len_subset(s.to_set(), all);
}

/// Placing the block at position `t` keeps the state.
proof fn lemma_place(
    g: Seq<Seq<u32>>,
    order: Seq<int>,
    pos: Seq<int>,
    before: Seq<Option<usize>>,
    after: Seq<Option<usize>>,
    t: int,
    b: int,
    new: Option<usize>,
    ps: Seq<usize>,
)
    requires
        dom_inv(g, order, pos, before, t),
        t < order.len(),
        b == order[t],
        pos[b] == t,
        0 <= b < g.len(),
        after == before.update(b, new),
        forall|a: int| #[trigger] has_pred(ps, a) == edge(g, a, b),
        new is Some <==> exists|q: int| 0 <= q < ps.len() && before[#[trigger] ps[q] as int] is Some,
        new is Some ==> new.unwrap() < g.len() && before[new.unwrap() as int] is Some,
        new is Some ==> forall|x: int|
            #![trigger anc(before, pos, x, new.unwrap() as int)]
            anc(before, pos, x, new.unwrap() as int) == (forall|q: int|
                0 <= q < ps.len() && before[#[trigger] ps[q] as int] is Some ==> anc(
                    before,
                    pos,
                    x,
                    ps[q] as int,
                )),
    ensures
        dom_inv(g, order, pos, after, t + 1),
{
    let f = forward_graph(g, order);
    // Some block before `b` in the order has an edge to it.
    assert(crate::dfs::has_earlier_pred(g, order, t));
    let i = choose|i: int| 0 <= i < t && #[trigger] edge(g, order[i], order[t]);
    assert(pos[order[i]] == i);
    assert(has_pred(ps, order[i]));
    let q0 = choose|q: int| 0 <= q < ps.len() && #[trigger] ps[q] as int == order[i];
    assert(before[ps[q0] as int] is Some);
    assert(new is Some);
    let d = new.unwrap() as int;
    assert(0 <= pos[d] < t);
    assert(order[0] == 0);
    assert(order[t] != order[0]);
    assert(b != 0);
    // The forward edges to `b` are those from blocks already placed.
    assert forall|a: int| #[trigger] edge(f, a, b) <==> (edge(g, a, b) && 0 <= a < g.len() && 0 <= pos[a] < t) by {
        lemma_forward_edge(g, order, a, b);
        if edge(g, a, b) && ordered(order, a, b) {
            let (x, y) = choose|x: int, y: int|
                0 <= x < y < order.len() && #[trigger] order[x] == a && #[trigger] order[y] == b;
            assert(pos[order[x]] == x);
            assert(pos[order[y]] == y);
        }
        if edge(g, a, b) && 0 <= a < g.len() && 0 <= pos[a] < t {
            assert(order[pos[a]] == a);
            assert(order[t] == b);
        }
    }
    assert forall|c: int, x: int| 0 <= c < g.len() && 0 <= pos[c] < t + 1 implies (#[trigger] anc(
        after,
        pos,
        x,
        c,
    ) == dominates(f, x, c)) by {
        if pos[c] < t {
            lemma_anc_frame(before, pos, x, c, b, new);
            assert(anc(before, pos, x, c) == dominates(f, x, c));
        } else {
            assert(order[pos[c]] == c);
            assert(c == b);
            if x == b {
                lemma_dom_self(f, b);
            } else {
                lemma_dom_step(f, x, b);
                lemma_anc_frame(before, pos, x, d, b, new);
                assert(anc(after, pos, x, b) == anc(before, pos, x, d));
                assert forall|q: int| 0 <= q < ps.len() && before[#[trigger] ps[q] as int] is Some implies edge(
                    f,
                    ps[q] as int,
                    b,
                ) && anc(before, pos, x, ps[q] as int) == dominates(f, x, ps[q] as int) by {
                    assert(has_pred(ps, ps[q] as int));
                    assert(edge(g, ps[q] as int, b));
                }
                if dominates(f, x, b) {
                    assert forall|q: int| 0 <= q < ps.len() && before[#[trigger] ps[q] as int] is Some implies anc(
                        before,
                        pos,
                        x,
                        ps[q] as int,
                    ) by {
                        assert(edge(f, ps[q] as int, b));
                        assert(dominates(f, x, ps[q] as int));
                    }
                }
                if anc(before, pos, x, d) {
                    assert forall|a: int| #[trigger] edge(f, a, b) implies dominates(f, x, a) by {
                        assert(edge(g, a, b));
                        assert(has_pred(ps, a));
                        let q = choose|q: int| 0 <= q < ps.len() && #[trigger] ps[q] as int == a;
                        assert(before[ps[q] as int] is Some);
                        assert(anc(before, pos, x, ps[q] as int));
                    }
                }
            }
        }
    }
    assert forall|c: int| 0 <= c < g.len() implies ((#[trigger] after[c]) is Some <==> 0 <= pos[c] < t
        + 1) by {
        if 0 <= pos[c] < t + 1 && c != b {
            assert(order[pos[c]] == c);
        }
    }
    assert forall|c: int| 0 <= c < g.len() && 0 < pos[c] < t + 1 implies 0 <= pos[(
    #[trigger] after[c]).unwrap() as int] < pos[c] && after[c].unwrap() < g.len() by {
        if c != b {
            assert(after[c] == before[c]);
            assert(order[pos[c]] == c);
        }
    }
}

proof fn lemma_forward_reach(g: Seq<Seq<u32>>, order: Seq<int>, j: int)
    requires
        topo_shape(g, order),
        0 <= j < order.len(),
    ensures
        reaches(forward_graph(g, order), 0, order[j]),
    decreases j,
{
    let f = forward_graph(g, order);
    if j == 0 {
        assert(g.len() > 0);
        assert(reach_k(f, 0, 0, 0));
    } else {
        assert(crate::dfs::has_earlier_pred(g, order, j));
        let i = choose|i: int| 0 <= i < j && #[trigger] edge(g, order[i], order[j]);
        lemma_forward_reach(g, order, i);
        assert(ordered(order, order[i], order[j]));
        lemma_forward_edge(g, order, order[i], order[j]);
        lemma_reach_step(f, 0, order[i], order[j]);
    }
}

proof fn lemma_same_reach(g: Seq<Seq<u32>>, h: Seq<Seq<u32>>, b: int, k: nat)
    requires
        h.len() == g.len(),
        forall|x: int, y: int| #[trigger] edge(h, x, y) ==> edge(g, x, y),
        reach_k(h, 0, b, k),
    ensures
        reach_k(g, 0, b, k),
    decreases k,
{
    if k > 0 {
        let m = choose|m: int| reach_k(h, 0, m, (k - 1) as nat) && #[trigger] edge(h, m, b);
        lemma_same_reach(g, h, m, (k - 1) as nat);
        assert(edge(g, m, b));
    }
}

/// Forward edges reach what all edges reach.
proof fn lemma_forward_reaches(g: Seq<Seq<u32>>, order: Seq<int>, b: int)
    requires
        topo_shape(g, order),
    ensures
        reaches(forward_graph(g, order), 0, b) == reaches(g, 0, b),
{
    let f = forward_graph(g, order);
    if reaches(f, 0, b) {
        let k = choose|k: nat| #[trigger] reach_k(f, 0, b, k);
        assert forall|x: int, y: int| #[trigger] edge(f, x, y) implies edge(g, x, y) by {
            lemma_forward_edge(g, order, x, y);
        }
        lemma_same_reach(g, f, b, k);
    }
    if reaches(g, 0, b) {
        assert(order.contains(b));
        let j = choose|j: int| 0 <= j < order.len() && order[j] == b;
        lemma_forward_reach(g, order, j);
    }
}

proof fn lemma_avoids_reach(g: Seq<Seq<u32>>, x: int, b: int, k: nat)
    requires
        avoids(g, x, b, k),
    ensures
        reach_k(g, 0, b, k),
    decreases k,
{
    if k > 0 {
        let a = choose|a: int| avoids(g, x, a, (k - 1) as nat) && #[trigger] edge(g, a, b);
        lemma_avoids_reach(g, x, a, (k - 1) as nat);
    }
}

/// Where every edge in reach leads forward, leaving out the others changes no path.
proof fn lemma_avoids_forward(g: Seq<Seq<u32>>, order: Seq<int>, x: int, b: int, k: nat)
    requires
        topo_shape(g, order),
        edges_forward(g, order),
    ensures
        avoids(forward_graph(g, order), x, b, k) == avoids(g, x, b, k),
    decreases k,
{
    let f = forward_graph(g, order);
    if k > 0 {
        if avoids(f, x, b, k) {
            let a = choose|a: int| avoids(f, x, a, (k - 1) as nat) && #[trigger] edge(f, a, b);
            lemma_avoids_forward(g, order, x, a, (k - 1) as nat);
            lemma_forward_edge(g, order, a, b);
        }
        if avoids(g, x, b, k) {
            let a = choose|a: int| avoids(g, x, a, (k - 1) as nat) && #[trigger] edge(g, a, b);
            lemma_avoids_forward(g, order, x, a, (k - 1) as nat);
            lemma_avoids_reach(g, x, a, (k - 1) as nat);
            lemma_avoids_reach(g, x, b, k);
            assert(reaches(g, 0, a) && reaches(g, 0, b));
            assert(order.contains(a) && order.contains(b));
            let i = choose|i: int| 0 <= i < order.len() && order[i] == a;
            let j = choose|j: int| 0 <= j < order.len() && order[j] == b;
            assert(edge(g, order[i], order[j]));
            assert(ordered(order, a, b));
            lemma_forward_edge(g, order, a, b);
        }
    }
}

/// The finished state gives the immediate dominators.
proof fn lemma_finish(g: Seq<Seq<u32>>, order: Seq<int>, pos: Seq<int>, idom: Seq<Option<usize>>)
    requires
        dom_inv(g, order, pos, idom, order.len() as int),
        order.len() <= g.len(),
        acyclic(g) ==> edges_forward(g, order),
    ensures
        is_idom(forward_graph(g, order), idom),
        forall|a: int, b: int|
            0 <= b < idom.len() ==> (#[trigger] strict(idom, a, b) == (a != b && reaches(
                forward_graph(g, order),
                0,
                b,
            ) && dominates(forward_graph(g, order), a, b))),
        acyclic(g) ==> is_idom(g, idom),
        acyclic(g) ==> forall|a: int, b: int|
            0 <= b < idom.len() ==> (#[trigger] strict(idom, a, b) == (a != b && reaches(g, 0, b)
                && dominates(g, a, b))),
{
    let f = forward_graph(g, order);
    assert forall|b: int| 0 <= b < g.len() implies ((#[trigger] idom[b]) is Some <==> reaches(f, 0, b))
        && (reaches(f, 0, b) == reaches(g, 0, b)) by {
        lemma_forward_reaches(g, order, b);
        if idom[b] is Some {
            assert(order[pos[b]] == b);
            assert(order.contains(b));
        }
        if reaches(g, 0, b) {
            assert(order.contains(b));
            let j = choose|j: int| 0 <= j < order.len() && order[j] == b;
            assert(pos[order[j]] == j);
        }
    }
    assert(order[0] == 0);
    assert(pos[order[0]] == 0);
    assert forall|b: int| 0 < b < g.len() && (#[trigger] idom[b]) is Some implies immediate(
        f,
        idom[b].unwrap() as int,
        b,
    ) by {
        let d = idom[b].unwrap() as int;
        assert(order[pos[b]] == b);
        assert(pos[b] > 0);
        assert(pos[d] < pos[b]);
        assert(anc(idom, pos, d, d));
        assert(anc(idom, pos, d, b));
        assert forall|x: int| x != b && #[trigger] dominates(f, x, b) implies dominates(f, x, d) by {
            assert(anc(idom, pos, x, b));
            assert(anc(idom, pos, x, d));
        }
    }
    assert(is_idom(f, idom));
    assert forall|a: int, b: int| 0 <= b < idom.len() implies (#[trigger] strict(idom, a, b) == (a != b
        && reaches(f, 0, b) && dominates(f, a, b))) by {
        assert(idom[b] is Some <==> reaches(f, 0, b));
        if a != b && idom[b] is Some {
            assert(order[pos[b]] == b);
            assert(anc(idom, pos, a, b) == dominates(f, a, b));
            if pos[b] > 0 {
                lemma_chain(g, order, pos, idom, a, b, idom.len());
            } else {
                assert(b == 0);
            }
        }
    }
    if acyclic(g) {
        assert forall|x: int, b: int| #[trigger] dominates(f, x, b) == dominates(g, x, b) by {
            if dominates(f, x, b) {
                assert forall|k: nat| !#[trigger] avoids(g, x, b, k) by {
                    lemma_avoids_forward(g, order, x, b, k);
                    assert(!avoids(f, x, b, k));
                }
            }
            if dominates(g, x, b) {
                assert forall|k: nat| !#[trigger] avoids(f, x, b, k) by {
                    lemma_avoids_forward(g, order, x, b, k);
                    assert(!avoids(g, x, b, k));
                }
            }
        }
        assert forall|b: int| 0 < b < g.len() && (#[trigger] idom[b]) is Some implies immediate(
            g,
            idom[b].unwrap() as int,
            b,
        ) by {
            let d = idom[b].unwrap() as int;
            assert(immediate(f, d, b));
            assert(dominates(f, d, b));
            assert forall|x: int| x != b && #[trigger] dominates(g, x, b) implies dominates(g, x, d) by {
                assert(dominates(f, x, b));
                assert(dominates(f, x, d));
            }
        }
        assert forall|a: int, b: int| 0 <= b < idom.len() implies (#[trigger] strict(idom, a, b) == (a
            != b && reaches(g, 0, b) && dominates(g, a, b))) by {
            assert(dominates(f, a, b) == dominates(g, a, b));
            assert(idom[b] is Some <==> reaches(f, 0, b));
        }
    }
}

/// A block never strictly dominates itself.
pub proof fn strict_irreflexive(idom: Seq<Option<usize>>, a: int)
    ensures
        !strict(idom, a, a),
{
}

/// A block that the entry does not reach strictly dominates nothing, and nothing strictly
/// dominates it, in the sense of the chains of immediate dominators.
pub proof fn unreached_dominates_nothing(g: Seq<Seq<u32>>, idom: Seq<Option<usize>>, a: int, b: int)
    requires
        is_idom(g, idom),
        0 <= a < g.len(),
        0 <= b < g.len(),
        forall|x: int, y: int|
            0 <= y < idom.len() ==> (#[trigger] strict(idom, x, y) == (x != y && reaches(g, 0, y)
                && dominates(g, x, y))),
        !reaches(g, 0, a),
    ensures
        !strict(idom, a, b),
        !strict(idom, b, a),
{
    if strict(idom, a, b) {
        let k = choose|k: nat| #[trigger] reach_k(g, 0, b, k);
        lemma_unreached_avoided(g, a, b, k);
        assert(avoids(g, a, b, k));
    }
}

proof fn lemma_unreached_avoided(g: Seq<Seq<u32>>, x: int, b: int, k: nat)
    requires
        !reaches(g, 0, x),
        reach_k(g, 0, b, k),
    ensures
        avoids(g, x, b, k),
    decreases k,
{
    assert(reaches(g, 0, b));
    lemma_reach_in_range(g, 0, b, k);
    if k > 0 {
        let m = choose|m: int| reach_k(g, 0, m, (k - 1) as nat) && #[trigger] edge(g, m, b);
        lemma_unreached_avoided(g, x, m, (k - 1) as nat);
    }
}

} // verus!
