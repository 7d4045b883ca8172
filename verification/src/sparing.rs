//! Questions that are skipped: their answers cannot change what follows.

use vstd::prelude::*;
use crate::annotations::AnnClause;
use crate::answers::is_skipped;
use crate::checker::verdict_at;
use crate::contracts::{
    checkable, clause_queries, holds_at, holds_before, proven, return_queries, return_query, skipped_clauses,
    unproven_upto, verified, verify_skipped,
};
use crate::encode::EncodedV;
use crate::ir::{FuncId, Function, Program, TypeId};
use crate::nil::{
    all_never_nil, const_nil, correlated, correlates_at, guarantees, is_error, is_ptr_result,
    looked_at, never_nil, never_nil_before, nil_encoding, nil_ensures, nil_ensures_skipped,
    nil_results, nil_return, nil_returns, skipped_results, with_correlations,
};
use crate::query::SatResult;
use crate::rets::{has_returns, results_of_sig, ret_sites, returned};
use crate::summary::{ClauseV, TableV};
use crate::term::TermV;

verus! {

/// Whether two lists of answers agree on what is not skipped.
pub open spec fn agree(skipped: Seq<bool>, v: Seq<SatResult>, w: Seq<SatResult>) -> bool {
    forall|k: int| !is_skipped(skipped, k) ==> #[trigger] verdict_at(v, k) == verdict_at(w, k)
}

/// The least number below `n` for which `f` does not hold.
proof fn least(f: spec_fn(int) -> bool, n: int) -> (r: int)
    requires
        exists|k: int| 0 <= k < n && !#[trigger] f(k),
    ensures
        0 <= r < n,
        !f(r),
        forall|k: int| 0 <= k < r ==> #[trigger] f(k),
    decreases n,
{
    let k = choose|k: int| 0 <= k < n && !#[trigger] f(k);
    if exists|j: int| 0 <= j < k && !#[trigger] f(j) {
        least(f, k)
    } else {
        k
    }
}

// ---- Results that may be nil ----

proof fn lemma_marks_of_result(
    p: &Program,
    f: &Function,
    e: EncodedV,
    rs: Seq<TypeId>,
    v: Seq<SatResult>,
    i: int,
    n: int,
)
    ensures
        crate::nil::skipped_returns(p, f, e, rs, v, i, n).len() == nil_returns(f, e, i, n).len(),
        forall|j: int|
            #![trigger nil_returns(f, e, i, j)]
            0 <= j < n && nil_return(f, e, ret_sites(f)[j], i) is Some ==> {
                &&& nil_returns(f, e, i, j).len() < nil_returns(f, e, i, n).len()
                &&& crate::nil::skipped_returns(p, f, e, rs, v, i, n)[nil_returns(
                    f,
                    e,
                    i,
                    j,
                ).len() as int] == !looked_at(p, f, e, rs, v, i, j)
            },
    decreases n,
{
    if n > 0 {
        lemma_marks_of_result(p, f, e, rs, v, i, n - 1);
    }
}

proof fn lemma_marks(
    p: &Program,
    f: &Function,
    e: EncodedV,
    rs: Seq<TypeId>,
    v: Seq<SatResult>,
    i: int,
    j: int,
    n: int,
)
    ensures
        skipped_results(p, f, e, rs, v, n).len() == nil_results(p, f, e, rs, n).len(),
        0 <= i < n && is_ptr_result(p, rs, i) && 0 <= j < ret_sites(f).len() && nil_return(
            f,
            e,
            ret_sites(f)[j],
            i,
        ) is Some ==> {
            let at = (nil_results(p, f, e, rs, i).len() + nil_returns(f, e, i, j).len()) as int;
            &&& at < nil_results(p, f, e, rs, n).len()
            &&& skipped_results(p, f, e, rs, v, n)[at] == !looked_at(p, f, e, rs, v, i, j)
        },
    decreases n,
{
    if n > 0 {
        lemma_marks(p, f, e, rs, v, i, j, n - 1);
        lemma_marks_of_result(p, f, e, rs, v, n - 1, ret_sites(f).len() as int);
        if i == n - 1 {
            lemma_marks(p, f, e, rs, v, i, j, i);
            assert(nil_returns(f, e, i, j) == nil_returns(f, e, i, j));
        }
    }
}

/// What is asked about is judged alike.
proof fn lemma_never_nil(
    p: &Program,
    f: &Function,
    e: EncodedV,
    rs: Seq<TypeId>,
    v: Seq<SatResult>,
    w: Seq<SatResult>,
    i: int,
    j: int,
)
    requires
        agree(skipped_results(p, f, e, rs, v, rs.len() as int), v, w),
        0 <= i < rs.len(),
        is_ptr_result(p, rs, i),
        0 <= j < ret_sites(f).len(),
        looked_at(p, f, e, rs, v, i, j),
    ensures
        never_nil(p, f, e, rs, v, i, j) == never_nil(p, f, e, rs, w, i, j),
{
    lemma_marks(p, f, e, rs, v, i, j, rs.len() as int);
    let at = (nil_results(p, f, e, rs, i).len() + nil_returns(f, e, i, j).len()) as int;
    if nil_return(f, e, ret_sites(f)[j], i) is Some {
        assert(!is_skipped(skipped_results(p, f, e, rs, v, rs.len() as int), at));
        assert(verdict_at(v, at) == verdict_at(w, at));
    }
}

proof fn lemma_all_never_nil(
    p: &Program,
    f: &Function,
    e: EncodedV,
    rs: Seq<TypeId>,
    v: Seq<SatResult>,
    w: Seq<SatResult>,
    i: int,
)
    requires
        agree(skipped_results(p, f, e, rs, v, rs.len() as int), v, w),
        0 <= i < rs.len(),
        is_ptr_result(p, rs, i),
    ensures
        all_never_nil(p, f, e, rs, v, i) == all_never_nil(p, f, e, rs, w, i),
{
    let n = ret_sites(f).len() as int;
    if all_never_nil(p, f, e, rs, v, i) {
        assert forall|j: int| 0 <= j < n implies #[trigger] never_nil(p, f, e, rs, w, i, j) by {
            assert(never_nil(p, f, e, rs, v, i, j));
            assert(never_nil_before(p, f, e, rs, v, i, j));
            lemma_never_nil(p, f, e, rs, v, w, i, j);
        }
    } else {
        let holds = |j: int| never_nil(p, f, e, rs, v, i, j);
        let k = choose|k: int| 0 <= k < n && !#[trigger] never_nil(p, f, e, rs, v, i, k);
        assert(!holds(k));
        let j = least(holds, n);
        assert forall|k: int| 0 <= k < j implies #[trigger] never_nil(p, f, e, rs, v, i, k) by {
            assert(holds(k));
        }
        assert(never_nil_before(p, f, e, rs, v, i, j));
        lemma_never_nil(p, f, e, rs, v, w, i, j);
        assert(!never_nil(p, f, e, rs, w, i, j));
    }
}

proof fn lemma_correlated(
    p: &Program,
    f: &Function,
    e: EncodedV,
    rs: Seq<TypeId>,
    v: Seq<SatResult>,
    w: Seq<SatResult>,
    x: int,
    i: int,
)
    requires
        agree(skipped_results(p, f, e, rs, v, rs.len() as int), v, w),
        0 <= i < rs.len(),
        0 <= x < rs.len(),
        x != i,
        is_error(&p.types, rs[x]),
        is_ptr_result(p, rs, i),
    ensures
        correlated(p, f, e, rs, v, x, i) == correlated(p, f, e, rs, w, x, i),
{
    let n = ret_sites(f).len() as int;
    if correlated(p, f, e, rs, v, x, i) {
        assert forall|j: int|
            0 <= j < n && const_nil(f, returned(f, ret_sites(f)[j])[x]) implies #[trigger] never_nil(
            p,
            f,
            e,
            rs,
            w,
            i,
            j,
        ) by {
            assert(never_nil(p, f, e, rs, v, i, j));
            assert(correlates_at(p, f, e, rs, v, x, i, j));
            lemma_never_nil(p, f, e, rs, v, w, i, j);
        }
    } else {
        let holds = |j: int|
            const_nil(f, returned(f, ret_sites(f)[j])[x]) ==> never_nil(p, f, e, rs, v, i, j);
        let k = choose|k: int|
            0 <= k < n && const_nil(f, returned(f, ret_sites(f)[k])[x]) && !#[trigger] never_nil(
                p,
                f,
                e,
                rs,
                v,
                i,
                k,
            );
        assert(!holds(k));
        let j = least(holds, n);
        assert forall|k: int|
            0 <= k < j && const_nil(f, returned(f, ret_sites(f)[k])[x]) implies #[trigger] never_nil(
            p,
            f,
            e,
            rs,
            v,
            i,
            k,
        ) by {
            assert(holds(k));
        }
        assert(correlates_at(p, f, e, rs, v, x, i, j));
        lemma_never_nil(p, f, e, rs, v, w, i, j);
        assert(!never_nil(p, f, e, rs, w, i, j));
    }
}

proof fn lemma_correlations(
    p: &Program,
    f: &Function,
    e: EncodedV,
    rs: Seq<TypeId>,
    v: Seq<SatResult>,
    w: Seq<SatResult>,
    s: Seq<ClauseV>,
    i: int,
    x: int,
)
    requires
        agree(skipped_results(p, f, e, rs, v, rs.len() as int), v, w),
        0 <= i < rs.len(),
        x <= rs.len(),
        is_ptr_result(p, rs, i),
    ensures
        with_correlations(p, f, e, rs, v, s, i, x) == with_correlations(p, f, e, rs, w, s, i, x),
    decreases x,
{
    if x > 0 {
        lemma_correlations(p, f, e, rs, v, w, s, i, x - 1);
        if is_error(&p.types, rs[x - 1]) && x - 1 != i {
            lemma_correlated(p, f, e, rs, v, w, x - 1, i);
        }
    }
}

proof fn lemma_guarantees(
    p: &Program,
    f: &Function,
    e: EncodedV,
    rs: Seq<TypeId>,
    v: Seq<SatResult>,
    w: Seq<SatResult>,
    i: int,
)
    requires
        agree(skipped_results(p, f, e, rs, v, rs.len() as int), v, w),
        i <= rs.len(),
    ensures
        guarantees(p, f, e, rs, v, i) == guarantees(p, f, e, rs, w, i),
    decreases i,
{
    if i > 0 {
        lemma_guarantees(p, f, e, rs, v, w, i - 1);
        if is_ptr_result(p, rs, i - 1) {
            lemma_all_never_nil(p, f, e, rs, v, w, i - 1);
            let s = guarantees(p, f, e, rs, v, i - 1);
            lemma_correlations(p, f, e, rs, v, w, s, i - 1, rs.len() as int);
        }
    }
}

/// What a function guarantees about nil depends on no answer to a question that is skipped.
pub proof fn skipped_answers_guarantee_nothing(
    p: &Program,
    f: FuncId,
    t: TableV,
    v: Seq<SatResult>,
    w: Seq<SatResult>,
)
    requires
        agree(nil_ensures_skipped(p, f, t, v), v, w),
    ensures
        nil_ensures(p, f, t, w) == nil_ensures(p, f, t, v),
{
    if let Some((func, e)) = nil_encoding(p, f, t) {
        if has_returns(p, &func) {
            let rs = results_of_sig(p, &func).unwrap();
            lemma_guarantees(p, &func, e, rs, v, w, rs.len() as int);
        }
    }
}

// ---- Annotated guarantees ----

proof fn lemma_marks_of_clause(
    f: &Function,
    e: EncodedV,
    own: Seq<TermV>,
    anns: Seq<AnnClause>,
    v: Seq<SatResult>,
    i: int,
    n: int,
)
    ensures
        crate::contracts::skipped_returns(f, e, own, anns, v, i, n).len() == return_queries(
            f,
            e,
            own,
            anns[i],
            n,
        ).len(),
        forall|j: int|
            #![trigger return_queries(f, e, own, anns[i], j)]
            0 <= j < n && return_query(f, e, own, anns[i], ret_sites(f)[j]) is Some ==> {
                &&& return_queries(f, e, own, anns[i], j).len() < return_queries(
                    f,
                    e,
                    own,
                    anns[i],
                    n,
                ).len()
                &&& crate::contracts::skipped_returns(f, e, own, anns, v, i, n)[return_queries(
                    f,
                    e,
                    own,
                    anns[i],
                    j,
                ).len() as int] == !holds_before(f, e, own, anns, v, i, j)
            },
    decreases n,
{
    if n > 0 {
        lemma_marks_of_clause(f, e, own, anns, v, i, n - 1);
    }
}

proof fn lemma_clause_marks(
    f: &Function,
    e: EncodedV,
    own: Seq<TermV>,
    anns: Seq<AnnClause>,
    v: Seq<SatResult>,
    i: int,
    j: int,
    n: int,
)
    ensures
        skipped_clauses(f, e, own, anns, v, n).len() == clause_queries(f, e, own, anns, n).len(),
        0 <= i < n && 0 <= j < ret_sites(f).len() && return_query(
            f,
            e,
            own,
            anns[i],
            ret_sites(f)[j],
        ) is Some ==> {
            let at = (clause_queries(f, e, own, anns, i).len() + return_queries(
                f,
                e,
                own,
                anns[i],
                j,
            ).len()) as int;
            &&& at < clause_queries(f, e, own, anns, n).len()
            &&& skipped_clauses(f, e, own, anns, v, n)[at] == !holds_before(
                f,
                e,
                own,
                anns,
                v,
                i,
                j,
            )
        },
    decreases n,
{
    if n > 0 {
        lemma_clause_marks(f, e, own, anns, v, i, j, n - 1);
        lemma_marks_of_clause(f, e, own, anns, v, n - 1, ret_sites(f).len() as int);
        if i == n - 1 {
            lemma_clause_marks(f, e, own, anns, v, i, j, i);
            assert(return_queries(f, e, own, anns[i], j) == return_queries(f, e, own, anns[i], j));
        }
    }
}

proof fn lemma_holds(
    f: &Function,
    e: EncodedV,
    own: Seq<TermV>,
    anns: Seq<AnnClause>,
    v: Seq<SatResult>,
    w: Seq<SatResult>,
    i: int,
    j: int,
)
    requires
        agree(skipped_clauses(f, e, own, anns, v, anns.len() as int), v, w),
        0 <= i < anns.len(),
        0 <= j < ret_sites(f).len(),
        holds_before(f, e, own, anns, v, i, j),
    ensures
        holds_at(f, e, own, anns, v, i, j) == holds_at(f, e, own, anns, w, i, j),
{
    lemma_clause_marks(f, e, own, anns, v, i, j, anns.len() as int);
    let at = (clause_queries(f, e, own, anns, i).len() + return_queries(
        f,
        e,
        own,
        anns[i],
        j,
    ).len()) as int;
    if return_query(f, e, own, anns[i], ret_sites(f)[j]) is Some {
        assert(!is_skipped(skipped_clauses(f, e, own, anns, v, anns.len() as int), at));
        assert(verdict_at(v, at) == verdict_at(w, at));
    }
}

proof fn lemma_proven(
    f: &Function,
    e: EncodedV,
    own: Seq<TermV>,
    anns: Seq<AnnClause>,
    v: Seq<SatResult>,
    w: Seq<SatResult>,
    i: int,
)
    requires
        agree(skipped_clauses(f, e, own, anns, v, anns.len() as int), v, w),
        0 <= i < anns.len(),
    ensures
        proven(f, e, own, anns, v, i) == proven(f, e, own, anns, w, i),
{
    let n = ret_sites(f).len() as int;
    if proven(f, e, own, anns, v, i) {
        assert forall|j: int| 0 <= j < n implies #[trigger] holds_at(f, e, own, anns, w, i, j) by {
            assert(holds_at(f, e, own, anns, v, i, j));
            assert(holds_before(f, e, own, anns, v, i, j));
            lemma_holds(f, e, own, anns, v, w, i, j);
        }
    } else {
        let holds = |j: int| holds_at(f, e, own, anns, v, i, j);
        let k = choose|k: int| 0 <= k < n && !#[trigger] holds_at(f, e, own, anns, v, i, k);
        assert(!holds(k));
        let j = least(holds, n);
        assert forall|k: int| 0 <= k < j implies #[trigger] holds_at(f, e, own, anns, v, i, k) by {
            assert(holds(k));
        }
        lemma_holds(f, e, own, anns, v, w, i, j);
        assert(!holds_at(f, e, own, anns, w, i, j));
    }
}

proof fn lemma_unproven(
    p: &Program,
    id: FuncId,
    f: &Function,
    e: EncodedV,
    own: Seq<TermV>,
    anns: Seq<AnnClause>,
    v: Seq<SatResult>,
    w: Seq<SatResult>,
    i: int,
)
    requires
        agree(skipped_clauses(f, e, own, anns, v, anns.len() as int), v, w),
        i <= anns.len(),
    ensures
        unproven_upto(p, id, f, e, own, anns, v, i) == unproven_upto(p, id, f, e, own, anns, w, i),
    decreases i,
{
    if i > 0 {
        lemma_unproven(p, id, f, e, own, anns, v, w, i - 1);
        lemma_proven(f, e, own, anns, v, w, i - 1);
    }
}

/// What is reported of annotated guarantees depends on no answer to a question that is skipped.
pub proof fn skipped_answers_report_nothing(
    p: &Program,
    id: FuncId,
    e: Option<EncodedV>,
    own: Seq<TermV>,
    anns: Seq<AnnClause>,
    v: Seq<SatResult>,
    w: Seq<SatResult>,
)
    requires
        agree(verify_skipped(p, id, e, own, anns, v), v, w),
    ensures
        verified(p, id, e, own, anns, w) == verified(p, id, e, own, anns, v),
{
    if checkable(p, id, e) {
        let f = p.body(id).unwrap();
        lemma_unproven(p, id, &f, e.unwrap(), own, anns, v, w, anns.len() as int);
    }
}

} // verus!
