//! Control-flow graphs: reachability, depth-first search, cutting of back edges and
//! topological order.
//!
//! A graph is a sequence of successor lists. A successor that names no node is no edge.

use vstd::prelude::*;
use crate::ir::Function;

verus! {

/// Whether `s` lists node `b`.
pub open spec fn lists(s: Seq<u32>, b: int) -> bool {
    exists|j: int| 0 <= j < s.len() && #[trigger] s[j] as int == b
}

/// Whether a list of predecessors holds `a`.
pub open spec fn has_pred(s: Seq<usize>, a: int) -> bool {
    exists|j: int| 0 <= j < s.len() && #[trigger] s[j] as int == a
}

/// Whether there is an edge from `a` to `b`.
pub open spec fn edge(g: Seq<Seq<u32>>, a: int, b: int) -> bool {
    0 <= a < g.len() && 0 <= b < g.len() && lists(g[a], b)
}

/// Whether a path of exactly `k` edges leads from `a` to `b`.
pub open spec fn reach_k(g: Seq<Seq<u32>>, a: int, b: int, k: nat) -> bool
    decreases k,
{
    if k == 0 {
        a == b && 0 <= a < g.len()
    } else {
        exists|m: int| reach_k(g, a, m, (k - 1) as nat) && #[trigger] edge(g, m, b)
    }
}

/// Whether some path leads from `a` to `b`.
pub open spec fn reaches(g: Seq<Seq<u32>>, a: int, b: int) -> bool {
    exists|k: nat| #[trigger] reach_k(g, a, b, k)
}

/// Whether a path of at least one edge leads from `a` to `b`.
pub open spec fn reaches_plus(g: Seq<Seq<u32>>, a: int, b: int) -> bool {
    exists|k: nat| k > 0 && #[trigger] reach_k(g, a, b, k)
}

/// The successor lists of a vector.
pub open spec fn adj(v: Seq<Vec<u32>>) -> Seq<Seq<u32>> {
    Seq::new(v.len(), |i: int| v[i]@)
}

/// The successor lists of a function's blocks.
pub open spec fn succ_graph(f: &Function) -> Seq<Seq<u32>> {
    Seq::new(f.blocks@.len(), |i: int| f.blocks@[i].succs@)
}

/// Paths stay within the graph.
pub proof fn lemma_reach_in_range(g: Seq<Seq<u32>>, a: int, b: int, k: nat)
    requires
        reach_k(g, a, b, k),
    ensures
        0 <= a < g.len(),
        0 <= b < g.len(),
    decreases k,
{
    if k > 0 {
        let m = choose|m: int| reach_k(g, a, m, (k - 1) as nat) && #[trigger] edge(g, m, b);
        lemma_reach_in_range(g, a, m, (k - 1) as nat);
    }
}

/// A path extends by an edge.
pub proof fn lemma_reach_step(g: Seq<Seq<u32>>, a: int, m: int, b: int)
    requires
        reaches(g, a, m),
        edge(g, m, b),
    ensures
        reaches(g, a, b),
        reaches_plus(g, a, b),
{
    let k = choose|k: nat| #[trigger] reach_k(g, a, m, k);
    assert(reach_k(g, a, b, k + 1));
}

/// Paths compose.
pub proof fn lemma_reach_compose(g: Seq<Seq<u32>>, a: int, m: int, b: int, j: nat, k: nat)
    requires
        reach_k(g, a, m, j),
        reach_k(g, m, b, k),
    ensures
        reach_k(g, a, b, j + k),
    decreases k,
{
    if k > 0 {
        let x = choose|x: int| reach_k(g, m, x, (k - 1) as nat) && #[trigger] edge(g, x, b);
        lemma_reach_compose(g, a, m, x, j, (k - 1) as nat);
        assert(reach_k(g, a, x, (j + k - 1) as nat));
    }
}

/// A nonempty path starts with an edge.
pub proof fn lemma_reach_front(g: Seq<Seq<u32>>, a: int, b: int, k: nat) -> (m: int)
    requires
        k > 0,
        reach_k(g, a, b, k),
    ensures
        edge(g, a, m),
        reach_k(g, m, b, (k - 1) as nat),
    decreases k,
{
    let x = choose|x: int| reach_k(g, a, x, (k - 1) as nat) && #[trigger] edge(g, x, b);
    if k == 1 {
        assert(x == a);
        b
    } else {
        let m = lemma_reach_front(g, a, x, (k - 1) as nat);
        assert(reach_k(g, m, x, (k - 2) as nat));
        m
    }
}

/// An edge is a path of one edge.
pub proof fn lemma_edge_reach(g: Seq<Seq<u32>>, a: int, b: int)
    requires
        edge(g, a, b),
    ensures
        reach_k(g, a, b, 1),
        reaches_plus(g, a, b),
{
    assert(reach_k(g, a, a, 0));
    assert(reach_k(g, a, b, 1));
}

/// Marks everything that a path of at least one edge reaches from `start`.
pub fn reach_from(g: &Vec<Vec<u32>>, start: usize) -> (seen: Vec<bool>)
    requires
        start < g@.len(),
    ensures
        seen@.len() == g@.len(),
        forall|b: int|
            0 <= b < g@.len() ==> (#[trigger] seen@[b] == reaches_plus(adj(g@), start as int, b)),
{
    let n = g.len();
    let ghost gg = adj(g@);
    let mut seen: Vec<bool> = Vec::new();
    let mut i: usize = 0;
    while i < n
        invariant
            i <= n,
            seen@.len() == i,
            forall|b: int| 0 <= b < i ==> !(#[trigger] seen@[b]),
        decreases n - i,
    {
        seen.push(false);
        i += 1;
    }
    // `todo` holds nodes whose successors are not looked at yet; `start` is the first.
    let mut todo: Vec<usize> = Vec::new();
    todo.push(start);
    let ghost mut opened: Set<int> = Set::empty();
    proof {
        assert(reach_k(gg, start as int, start as int, 0));
        assert(todo@[0] == start);
    }
    while todo.len() > 0
        invariant
            n == g@.len(),
            start < n,
            gg == adj(g@),
            seen@.len() == n,
            forall|k: int| 0 <= k < todo@.len() ==> (#[trigger] todo@[k]) < n,
            forall|k: int|
                0 <= k < todo@.len() ==> reaches(gg, start as int, #[trigger] todo@[k] as int),
            forall|b: int|
                0 <= b < n && #[trigger] seen@[b] ==> reaches_plus(gg, start as int, b),
            forall|b: int, c: int|
                #![trigger opened.contains(b), edge(gg, b, c)]
                opened.contains(b) && edge(gg, b, c) ==> seen@[c],
            opened.contains(start as int) || todo@.contains(start),
            forall|b: int|
                0 <= b < n && #[trigger] seen@[b] ==> opened.contains(b) || todo@.contains(
                    b as usize,
                ),
        decreases unseen(seen@), todo@.len(),
    {
        let ghost before = todo@;
        let b = todo.pop().unwrap();
        assert(before.last() == b);
        assert(todo@ =~= before.drop_last());
        let ghost base = todo@;
        let ghost seen0 = seen@;
        let mut j: usize = 0;
        let m = g[b].len();
        while j < m
            invariant
                n == g@.len(),
                start < n,
                gg == adj(g@),
                b < n,
                m == g@[b as int]@.len(),
                j <= m,
                seen@.len() == n,
                seen0.len() == n,
                reaches(gg, start as int, b as int),
                forall|k: int| 0 <= k < todo@.len() ==> (#[trigger] todo@[k]) < n,
                forall|k: int|
                    0 <= k < todo@.len() ==> reaches(gg, start as int, #[trigger] todo@[k] as int),
                forall|x: int|
                    0 <= x < n && #[trigger] seen@[x] ==> reaches_plus(gg, start as int, x),
                forall|x: int| 0 <= x < n && #[trigger] seen0[x] ==> seen@[x],
                forall|k: int| 0 <= k < base.len() ==> todo@.contains(#[trigger] base[k]),
                forall|k: int|
                    0 <= k < j && (#[trigger] g@[b as int]@[k]) < n ==> seen@[g@[b as int]@[k] as int],
                forall|x: int|
                    0 <= x < n && #[trigger] seen@[x] ==> seen0[x] || todo@.contains(x as usize),
                unseen(seen@) < unseen(seen0) || (unseen(seen@) == unseen(seen0) && todo@.len()
                    == base.len()),
            decreases m - j,
        {
            let s = g[b][j] as usize;
            if s < n && !seen[s] {
                let ghost seen1 = seen@;
                let ghost todo1 = todo@;
                seen.set(s, true);
                todo.push(s);
                proof {
                    assert(lists(gg[b as int], s as int)) by {
                        assert(gg[b as int][j as int] as int == s as int);
                    }
                    assert(edge(gg, b as int, s as int));
                    lemma_reach_step(gg, start as int, b as int, s as int);
                    lemma_unseen_set(seen1, s as int);
                    assert(todo@[todo1.len() as int] == s);
                    assert forall|k: int| 0 <= k < base.len() implies todo@.contains(
                        #[trigger] base[k],
                    ) by {
                        let q = choose|q: int| 0 <= q < todo1.len() && todo1[q] == base[k];
                        assert(todo@[q] == base[k]);
                    }
                    assert forall|x: int| 0 <= x < n && #[trigger] seen@[x] implies seen0[x]
                        || todo@.contains(x as usize) by {
                        if x == s {
                            assert(todo@[todo1.len() as int] == x as usize);
                        } else {
                            assert(seen1[x]);
                            if !seen0[x] {
                                let q = choose|q: int| 0 <= q < todo1.len() && todo1[q] == x as usize;
                                assert(todo@[q] == x as usize);
                            }
                        }
                    }
                }
            }
            j += 1;
        }
        proof {
            let opened0 = opened;
            opened = opened.insert(b as int);
            assert forall|x: int, c: int|
                #![trigger opened.contains(x), edge(gg, x, c)]
                opened.contains(x) && edge(gg, x, c) implies seen@[c] by {
                if x == b {
                    let k = choose|k: int|
                        0 <= k < gg[x].len() && #[trigger] gg[x][k] as int == c;
                    assert(g@[b as int]@[k] as int == c);
                } else {
                    assert(seen0[c]);
                }
            }
            assert forall|x: int| 0 <= x < n && #[trigger] seen@[x] implies opened.contains(x)
                || todo@.contains(x as usize) by {
                if seen0[x] && !todo@.contains(x as usize) && x != b {
                    if before.contains(x as usize) {
                        let q = choose|q: int| 0 <= q < before.len() && before[q] == x as usize;
                        assert(q < base.len());
                        assert(base[q] == x as usize);
                        assert(todo@.contains(base[q]));
                    }
                }
            }
            if !opened.contains(start as int) {
                let q = choose|q: int| 0 <= q < before.len() && before[q] == start;
                assert(q < base.len());
                assert(base[q] == start);
                assert(todo@.contains(base[q]));
            }
        }
    }
    proof {
        assert forall|b: int| 0 <= b < g@.len() implies (#[trigger] seen@[b] == reaches_plus(
            gg,
            start as int,
            b,
        )) by {
            if reaches_plus(gg, start as int, b) {
                let k = choose|k: nat| k > 0 && #[trigger] reach_k(gg, start as int, b, k);
                lemma_closed_reach(gg, start as int, b, k, seen@, opened);
            }
        }
    }
    seen
}

/// The number of nodes not seen.
spec fn unseen(s: Seq<bool>) -> nat
    decreases s.len(),
{
    if s.len() == 0 {
        0
    } else {
        unseen(s.drop_last()) + if s.last() { 0nat } else { 1nat }
    }
}

proof fn lemma_unseen_set(s: Seq<bool>, i: int)
    requires
        0 <= i < s.len(),
        !s[i],
    ensures
        unseen(s.update(i, true)) + 1 == unseen(s),
    decreases s.len(),
{
    let t = s.update(i, true);
    if i == s.len() - 1 {
        assert(t.drop_last() =~= s.drop_last());
    } else {
        assert(t.drop_last() =~= s.drop_last().update(i, true));
        lemma_unseen_set(s.drop_last(), i);
    }
}

proof fn lemma_closed_reach(
    g: Seq<Seq<u32>>,
    a: int,
    b: int,
    k: nat,
    seen: Seq<bool>,
    opened: Set<int>,
)
    requires
        k > 0,
        reach_k(g, a, b, k),
        seen.len() == g.len(),
        opened.contains(a),
        forall|x: int, c: int|
            #![trigger opened.contains(x), edge(g, x, c)]
            opened.contains(x) && edge(g, x, c) ==> seen[c],
        forall|x: int| 0 <= x < g.len() && #[trigger] seen[x] ==> opened.contains(x),
    ensures
        seen[b],
    decreases k,
{
    let m = choose|m: int| reach_k(g, a, m, (k - 1) as nat) && #[trigger] edge(g, m, b);
    if k == 1 {
        assert(m == a);
    } else {
        lemma_closed_reach(g, a, m, (k - 1) as nat, seen, opened);
    }
    assert(opened.contains(m));
}

/// The successor lists of a function, copied out.
pub fn succ_lists(f: &Function) -> (r: Vec<Vec<u32>>)
    ensures
        adj(r@) == succ_graph(f),
{
    let mut out: Vec<Vec<u32>> = Vec::new();
    let mut b: usize = 0;
    while b < f.blocks.len()
        invariant
            b <= f.blocks@.len(),
            out@.len() == b,
            forall|i: int| 0 <= i < b ==> (#[trigger] out@[i])@ == f.blocks@[i].succs@,
        decreases f.blocks@.len() - b,
    {
        out.push(copy_ids(&f.blocks[b].succs));
        b += 1;
    }
    assert(adj(out@) =~= succ_graph(f));
    out
}

/// A copy of a list of ids.
pub fn copy_ids(v: &Vec<u32>) -> (r: Vec<u32>)
    ensures
        r@ == v@,
{
    let mut out: Vec<u32> = Vec::new();
    let mut i: usize = 0;
    while i < v.len()
        invariant
            i <= v@.len(),
            out@ == v@.take(i as int),
        decreases v@.len() - i,
    {
        out.push(v[i]);
        assert(v@.take(i as int + 1) =~= v@.take(i as int).push(v@[i as int]));
        i += 1;
    }
    assert(v@.take(v@.len() as int) =~= v@);
    out
}

/// Which blocks sit on a control-flow cycle: those that a path of at least one edge leads
/// back to.
pub fn cyclic_blocks(f: &Function) -> (r: Vec<bool>)
    ensures
        r@.len() == f.blocks@.len(),
        forall|b: int|
            0 <= b < r@.len() ==> (#[trigger] r@[b] == reaches_plus(succ_graph(f), b, b)),
{
    let g = succ_lists(f);
    let mut out: Vec<bool> = Vec::new();
    let mut b: usize = 0;
    assert(adj(g@).len() == g@.len());
    assert(succ_graph(f).len() == f.blocks@.len());
    while b < g.len()
        invariant
            b <= g@.len(),
            adj(g@) == succ_graph(f),
            g@.len() == f.blocks@.len(),
            out@.len() == b,
            forall|i: int|
                0 <= i < b ==> (#[trigger] out@[i] == reaches_plus(succ_graph(f), i, i)),
        decreases g@.len() - b,
    {
        let seen = reach_from(&g, b);
        assert(seen@[b as int] == reaches_plus(adj(g@), b as int, b as int));
        out.push(seen[b]);
        b += 1;
    }
    out
}

/// Whether `v` lists node `b`.
pub fn contains_id(v: &Vec<u32>, b: usize) -> (r: bool)
    ensures
        r == lists(v@, b as int),
{
    let mut i: usize = 0;
    while i < v.len()
        invariant
            i <= v@.len(),
            forall|j: int| 0 <= j < i ==> #[trigger] v@[j] as int != b,
        decreases v@.len() - i,
    {
        if v[i] as usize == b {
            assert(v@[i as int] as int == b as int);
            return true;
        }
        i += 1;
    }
    false
}

/// Whether `s` lists, in ascending order, the indices below `n` that satisfy `p`.
pub open spec fn ascending_filter(s: Seq<usize>, n: int, p: spec_fn(int) -> bool) -> bool {
    &&& forall|i: int, j: int| 0 <= i < j < s.len() ==> #[trigger] s[i] < #[trigger] s[j]
    &&& forall|i: int| 0 <= i < s.len() ==> (#[trigger] s[i]) < n && p(s[i] as int)
    &&& forall|b: int| 0 <= b < n && #[trigger] p(b) ==> s.contains(b as usize)
}

/// Every block other than `block` from which a path leads to `block`, in ascending order.
pub fn strict_ancestors(dag: &Vec<Vec<u32>>, block: usize) -> (r: Vec<usize>)
    ensures
        ascending_filter(
            r@,
            dag@.len() as int,
            |b: int| b != block && reaches_plus(adj(dag@), b, block as int),
        ),
{
    let n = dag.len();
    let ghost p = |b: int| b != block && reaches_plus(adj(dag@), b, block as int);
    let mut out: Vec<usize> = Vec::new();
    if block >= n {
        proof {
            assert forall|b: int| 0 <= b < n implies !#[trigger] p(b) by {
                if reaches_plus(adj(dag@), b, block as int) {
                    let k = choose|k: nat|
                        k > 0 && #[trigger] reach_k(adj(dag@), b, block as int, k);
                    lemma_reach_in_range(adj(dag@), b, block as int, k);
                }
            }
        }
        return out;
    }
    let mut b: usize = 0;
    while b < n
        invariant
            b <= n,
            n == dag@.len(),
            block < n,
            p == (|b: int| b != block && reaches_plus(adj(dag@), b, block as int)),
            ascending_filter(out@, b as int, p),
        decreases n - b,
    {
        let ghost before = out@;
        let seen = reach_from(dag, b);
        assert(p(b as int) == (b != block && seen@[block as int]));
        if b != block && seen[block] {
            out.push(b);
        }
        proof {
            assert forall|x: int| 0 <= x < b + 1 && #[trigger] p(x) implies out@.contains(
                x as usize,
            ) by {
                if x == b {
                    assert(out@[before.len() as int] == x as usize);
                } else {
                    let q = choose|q: int| 0 <= q < before.len() && before[q] == x as usize;
                    assert(out@[q] == x as usize);
                }
            }
        }
        b += 1;
    }
    out
}

} // verus!
