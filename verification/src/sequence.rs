//! In what order things come: findings by position and message, components no later than their
//! callees ask for, and closures that are known by their one set of bindings.

use vstd::prelude::*;
use crate::annotations::Annotations;
use crate::checker::{Checker, Finding, FindingV};
use crate::effects::{bindings_upto, fv_slots, resolved, slot};
use crate::engine::{depth_above, depths_of, depths_upto, lemma_depths};
use crate::findings::{checking_failed, finding_key, function_findings, unsorted_findings};
use crate::fixpoint::AnswersV;
use crate::ir::{FuncId, Function, Op, Program, Sccs, ValueId};
use crate::order::{codes, lex_lt};
use crate::sort::{closed_text, closed_text_order, sorting_sorts};
use crate::summary::TableV;

verus! {

// ---- Findings ----

/// Whether text `a` comes strictly before text `b`: at the first place where they differ, by
/// code point; a text comes before what it starts.
pub open spec fn text_lt(a: Seq<char>, b: Seq<char>) -> bool {
    exists|k: int| #[trigger] differs_at(a, b, k)
}

/// Whether `a` and `b` first differ at `k`, and `a` is the smaller there or ends there.
pub open spec fn differs_at(a: Seq<char>, b: Seq<char>, k: int) -> bool {
    &&& 0 <= k < b.len()
    &&& k <= a.len()
    &&& a.take(k) == b.take(k)
    &&& k == a.len() || a[k] < b[k]
}

proof fn lemma_text_lt(a: Seq<char>, b: Seq<char>)
    ensures
        lex_lt(codes(a), codes(b)) == text_lt(a, b),
    decreases a.len(),
{
    let x = codes(a);
    let y = codes(b);
    if b.len() == 0 {
    } else if a.len() == 0 {
        assert(a.take(0) =~= b.take(0));
        assert(differs_at(a, b, 0));
    } else if a[0] != b[0] {
        if a[0] < b[0] {
            assert(a.take(0) =~= b.take(0));
            assert(differs_at(a, b, 0));
        } else if text_lt(a, b) {
            let k = choose|k: int| #[trigger] differs_at(a, b, k);
            if k > 0 {
                assert(a.take(k)[0] == b.take(k)[0]);
            }
        }
    } else {
        let c = a.drop_first();
        let d = b.drop_first();
        assert(x.drop_first() =~= codes(c));
        assert(y.drop_first() =~= codes(d));
        lemma_text_lt(c, d);
        if text_lt(c, d) {
            let k = choose|k: int| #[trigger] differs_at(c, d, k);
            assert(a.take(k + 1) =~= seq![a[0]] + c.take(k));
            assert(b.take(k + 1) =~= seq![b[0]] + d.take(k));
            assert(differs_at(a, b, k + 1));
        }
        if text_lt(a, b) {
            let k = choose|k: int| #[trigger] differs_at(a, b, k);
            assert(k > 0);
            assert(c.take(k - 1) =~= a.take(k).drop_first());
            assert(d.take(k - 1) =~= b.take(k).drop_first());
            assert(differs_at(c, d, k - 1));
        }
    }
}

/// Whether finding `a` is to come before finding `b`: those without a position first, then by
/// file, line and column, and at one position by message.
pub open spec fn comes_before(a: FindingV, b: FindingV) -> bool {
    match (a.pos, b.pos) {
        (None, None) => text_lt(a.message, b.message),
        (None, Some(_)) => true,
        (Some(_), None) => false,
        (Some(p), Some(q)) => if p.file != q.file {
            text_lt(p.file, q.file)
        } else if p.line != q.line {
            p.line < q.line
        } else if p.col != q.col {
            p.col < q.col
        } else {
            text_lt(a.message, b.message)
        },
    }
}

proof fn lemma_key(a: FindingV, b: FindingV)
    ensures
        lex_lt(finding_key(a), finding_key(b)) == comes_before(a, b),
{
    let x = finding_key(a);
    let y = finding_key(b);
    let ma = codes(a.message);
    let mb = codes(b.message);
    lemma_text_lt(a.message, b.message);
    match (a.pos, b.pos) {
        (None, None) => {
            assert(x.drop_first() =~= ma);
            assert(y.drop_first() =~= mb);
        },
        (Some(p), Some(q)) => {
            let u = seq![p.line as int, p.col as int] + ma;
            let v = seq![q.line as int, q.col as int] + mb;
            assert(x.drop_first() =~= closed_text(p.file) + u);
            assert(y.drop_first() =~= closed_text(q.file) + v);
            closed_text_order(p.file, u, q.file, v);
            lemma_text_lt(p.file, q.file);
            assert(u.drop_first() =~= seq![p.col as int] + ma);
            assert(v.drop_first() =~= seq![q.col as int] + mb);
            assert(u.drop_first().drop_first() =~= ma);
            assert(v.drop_first().drop_first() =~= mb);
            reveal_with_fuel(lex_lt, 3);
        },
        _ => {},
    }
}

/// The findings of a function are all that was found, in order: none comes after one that it
/// is to come before.
pub proof fn findings_are_in_order<C: Checker>(
    p: &Program,
    f: FuncId,
    t: TableV,
    cs: Seq<C>,
    m: AnswersV,
    anns: &Annotations,
    i: int,
    j: int,
)
    requires
        !checking_failed(p, f, t, cs, cs.len()),
        0 <= i <= j < function_findings(p, f, t, cs, m, anns).len(),
    ensures
        ({
            let fs = function_findings(p, f, t, cs, m, anns);
            &&& !comes_before(fs[j], fs[i])
            &&& fs.to_multiset() == unsorted_findings(p, f, t, cs, m, anns).to_multiset()
        }),
{
    let s = unsorted_findings(p, f, t, cs, m, anns);
    let fs = function_findings(p, f, t, cs, m, anns);
    sorting_sorts::<Finding>(s);
    lemma_key(fs[j], fs[i]);
}

// ---- Components ----

proof fn lemma_reason(callees: Seq<usize>, depths: Seq<nat>, k: nat)
    requires
        k <= callees.len(),
    ensures
        depth_above(callees, depths, k) == 0 || exists|j: int|
            0 <= j < k && depths[#[trigger] callees[j] as int] + 1 == depth_above(callees, depths, k),
    decreases k,
{
    if k > 0 {
        lemma_reason(callees, depths, (k - 1) as nat);
        let d = depths[callees[k - 1] as int] + 1;
        let before = depth_above(callees, depths, (k - 1) as nat);
        if d > before {
            assert(depths[callees[k - 1] as int] + 1 == depth_above(callees, depths, k));
        } else if before > 0 {
            let j = choose|j: int|
                0 <= j < k - 1 && depths[#[trigger] callees[j] as int] + 1 == before;
            assert(depths[callees[j] as int] + 1 == depth_above(callees, depths, k));
        }
    }
}

proof fn lemma_depths_stay(sccs: &Sccs, i: int, n: nat)
    requires
        0 <= i < n <= sccs.schedule@.len(),
    ensures
        depths_upto(sccs, n).len() == n,
        depths_upto(sccs, n)[i] == depth_above(
            sccs.callee_sccs@[i]@,
            depths_upto(sccs, i as nat),
            sccs.callee_sccs@[i]@.len(),
        ),
        forall|k: int| 0 <= k < i ==> depths_upto(sccs, n)[k] == #[trigger] depths_upto(
            sccs,
            i as nat,
        )[k],
    decreases n,
{
    lemma_len(sccs, (n - 1) as nat);
    lemma_len(sccs, i as nat);
    if i < n - 1 {
        lemma_depths_stay(sccs, i, (n - 1) as nat);
    }
}

proof fn lemma_len(sccs: &Sccs, n: nat)
    ensures
        depths_upto(sccs, n).len() == n,
    decreases n,
{
    if n > 0 {
        lemma_len(sccs, (n - 1) as nat);
    }
}

/// A component waits for its callees and for nothing else: it comes right after the deepest
/// component that it calls, and first if it calls none.
pub proof fn components_wait_for_their_callees_only(sccs: &Sccs, funcs: nat, i: int)
    requires
        sccs.wf(funcs),
        0 <= i < sccs.schedule@.len(),
    ensures
        ({
            let d = depths_of(sccs);
            let callees = sccs.callee_sccs@[i]@;
            &&& forall|j: int| 0 <= j < callees.len() ==> d[#[trigger] callees[j] as int] < d[i]
            &&& d[i] == 0 || exists|j: int|
                0 <= j < callees.len() && d[#[trigger] callees[j] as int] + 1 == d[i]
        }),
{
    let n = sccs.schedule@.len();
    let d = depths_of(sccs);
    let callees = sccs.callee_sccs@[i]@;
    lemma_depths(sccs, n, funcs);
    lemma_depths_stay(sccs, i, n);
    let before = depths_upto(sccs, i as nat);
    lemma_reason(callees, before, callees.len());
    lemma_len(sccs, i as nat);
    if d[i] != 0 {
        let j = choose|j: int|
            0 <= j < callees.len() && before[#[trigger] callees[j] as int] + 1 == d[i];
        assert(sccs.callee_sccs@[i]@[j] < i);
        assert(d[callees[j] as int] == before[callees[j] as int]);
    }
}

// ---- Closures ----

/// Whether instruction `k` makes a closure over `c` with these bindings.
pub open spec fn closure_at(f: &Function, c: FuncId, k: int, bindings: Seq<ValueId>) -> bool {
    0 <= k < f.sites().len() && match f.op_at(f.sites()[k]) {
        Op::MakeClosure { func, bindings: b, .. } => func == c && b@ == bindings,
        _ => false,
    }
}

/// Whether instruction `k` makes a closure over `c`.
pub open spec fn closes_at(f: &Function, c: FuncId, k: int) -> bool {
    0 <= k < f.sites().len() && (f.op_at(f.sites()[k]) matches Op::MakeClosure { func, .. } && func
        == c)
}

proof fn lemma_bindings(f: &Function, c: FuncId, n: int)
    requires
        0 <= n <= f.sites().len(),
    ensures
        match bindings_upto(f, c, n) {
            None => forall|k: int| 0 <= k < n ==> !#[trigger] closes_at(f, c, k),
            Some(Some(b)) => exists|k: int|
                0 <= k < n && #[trigger] closure_at(f, c, k, b) && forall|i: int|
                    0 <= i < n && #[trigger] closes_at(f, c, i) ==> i == k,
            Some(None) => exists|i: int, k: int|
                0 <= i < k < n && #[trigger] closes_at(f, c, i) && #[trigger] closes_at(f, c, k),
        },
    decreases n,
{
    if n > 0 {
        lemma_bindings(f, c, n - 1);
        let here = closes_at(f, c, n - 1);
        match bindings_upto(f, c, n - 1) {
            None => {
                if here {
                    let b = bindings_upto(f, c, n).unwrap().unwrap();
                    assert(closure_at(f, c, n - 1, b));
                }
            },
            Some(Some(b)) => {
                let k = choose|k: int|
                    0 <= k < n - 1 && #[trigger] closure_at(f, c, k, b) && forall|i: int|
                        0 <= i < n - 1 && #[trigger] closes_at(f, c, i) ==> i == k;
                assert(closes_at(f, c, k));
                assert(closure_at(f, c, k, b));
                if here {
                    assert(0 <= k < n - 1 && closes_at(f, c, n - 1));
                }
            },
            Some(None) => {
                let (i, k) = choose|i: int, k: int|
                    0 <= i < k < n - 1 && #[trigger] closes_at(f, c, i) && #[trigger] closes_at(f, c, k);
                assert(0 <= i < k < n && closes_at(f, c, i) && closes_at(f, c, k));
            },
        }
    }
}

/// What a function captures is known exactly where its caller makes one closure over it: then
/// captured variable `i` is where binding `i` is.
pub proof fn captured_variables_are_the_bindings(
    f: &Function,
    c: FuncId,
    k: int,
    bindings: Seq<ValueId>,
    i: u32,
)
    ensures
        closure_at(f, c, k, bindings) && (forall|j: int| #[trigger] closes_at(f, c, j) ==> j == k) && i
            < bindings.len() ==> slot(fv_slots(f, c), i) == resolved(f, bindings[i as int]),
        !(exists|j: int| #[trigger] closes_at(f, c, j)) ==> fv_slots(f, c).len() == 0,
        (exists|x: int, y: int| #[trigger] closes_at(f, c, x) && #[trigger] closes_at(f, c, y) && x < y)
            ==> fv_slots(f, c).len() == 0,
{
    let n = f.sites().len() as int;
    lemma_bindings(f, c, n);
    if closure_at(f, c, k, bindings) && (forall|j: int| #[trigger] closes_at(f, c, j) ==> j == k) {
        assert(closes_at(f, c, k));
        match bindings_upto(f, c, n) {
            None => {},
            Some(Some(b)) => {
                let m = choose|m: int|
                    0 <= m < n && #[trigger] closure_at(f, c, m, b) && forall|i: int|
                        0 <= i < n && #[trigger] closes_at(f, c, i) ==> i == m;
                assert(closes_at(f, c, m));
                assert(b == bindings);
            },
            Some(None) => {
                let (x, y) = choose|x: int, y: int|
                    0 <= x < y < n && #[trigger] closes_at(f, c, x) && #[trigger] closes_at(f, c, y);
                assert(x == k && y == k);
            },
        }
    }
    if let Some(Some(b)) = bindings_upto(f, c, n) {
        let m = choose|m: int|
            0 <= m < n && #[trigger] closure_at(f, c, m, b) && forall|i: int|
                0 <= i < n && #[trigger] closes_at(f, c, i) ==> i == m;
        assert(closes_at(f, c, m));
        if exists|x: int, y: int|
            #[trigger] closes_at(f, c, x) && #[trigger] closes_at(f, c, y) && x < y {
            let (x, y) = choose|x: int, y: int|
                #[trigger] closes_at(f, c, x) && #[trigger] closes_at(f, c, y) && x < y;
            assert(x == m && y == m);
        }
    }
}

} // verus!
