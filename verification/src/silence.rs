//! What is reported if the solver never confirms anything.

use vstd::prelude::*;
use crate::annotations::{AnnClause, Annotations};
use crate::answers::verdicts_on;
use crate::checker::{Checker, Finding, FindingV, Severity};
use crate::contracts::{checkable, unproven_upto, unverified, verified};
use crate::encode::EncodedV;
use crate::engine::{
    after_wave, after_waves, analysis, final_table, fixpoint_of, is_hit,
    report_upto, start_of, waves_of, InputV, ReplayV, RunV,
};
use crate::findings::{
    checking_failed, function_findings, guarantees_asked, guarantees_reported, nothing_satisfiable,
    silent_solver_reports_no_error, unsorted_findings, usable,
};
use crate::fixpoint::AnswersV;
use crate::ir::{FuncId, Function, Program};
use crate::query::SatResult;
use crate::shared::clause_terms;
use crate::sort::{sorted, sorting_sorts};
use crate::summary::TableV;
use crate::term::TermV;

verus! {

/// Whether `v` says of guarantee `i` of `f` that it is not proved.
pub open spec fn warns_of(
    p: &Program,
    anns: &Annotations,
    f: FuncId,
    i: int,
    v: FindingV,
) -> bool {
    anns.of(f) matches Some(a) && 0 <= i < a.ensures_@.len() && v == unverified(
        p,
        f,
        a.ensures_@[i],
    )
}

/// Whether `v` says of some annotated guarantee that it is not proved.
pub open spec fn is_warning(p: &Program, anns: &Annotations, v: FindingV) -> bool {
    exists|f: FuncId, i: int| warns_of(p, anns, f, i, v)
}

/// Whether all of `s` say of annotated guarantees that they are not proved.
pub open spec fn all_warnings(p: &Program, anns: &Annotations, s: Seq<FindingV>) -> bool {
    forall|k: int| 0 <= k < s.len() ==> is_warning(p, anns, #[trigger] s[k])
}

proof fn lemma_unproven(
    p: &Program,
    id: FuncId,
    f: &Function,
    e: EncodedV,
    own: Seq<TermV>,
    list: Seq<AnnClause>,
    verdicts: Seq<SatResult>,
    n: int,
    anns: &Annotations,
)
    requires
        n <= list.len(),
        anns.of(id) is Some,
        list == anns.of(id).unwrap().ensures_@,
    ensures
        all_warnings(p, anns, unproven_upto(p, id, f, e, own, list, verdicts, n)),
    decreases n,
{
    if n > 0 {
        lemma_unproven(p, id, f, e, own, list, verdicts, n - 1, anns);
        assert(warns_of(p, anns, id, n - 1, unverified(p, id, list[n - 1])));
    }
}

proof fn lemma_guarantees(p: &Program, f: FuncId, t: TableV, anns: &Annotations, m: AnswersV)
    ensures
        all_warnings(p, anns, guarantees_reported(p, f, t, anns, m)),
{
    if let Some(a) = anns.of(f) {
        let e = usable(p, f, t);
        let own = clause_terms(t.summary(f).requires_);
        let list = a.ensures_@;
        let vs = verdicts_on(m, guarantees_asked(p, f, t, anns));
        if checkable(p, f, e) {
            let func = p.body(f).unwrap();
            lemma_unproven(p, f, &func, e.unwrap(), own, list, vs, list.len() as int, anns);
        } else {
            let s = verified(p, f, e, own, list, vs);
            assert forall|k: int| 0 <= k < s.len() implies is_warning(p, anns, #[trigger] s[k]) by {
                assert(warns_of(p, anns, f, k, s[k]));
            }
        }
    }
}

proof fn lemma_function<C: Checker>(
    p: &Program,
    f: FuncId,
    t: TableV,
    cs: Seq<C>,
    m: AnswersV,
    anns: &Annotations,
)
    requires
        nothing_satisfiable(m),
    ensures
        all_warnings(p, anns, function_findings(p, f, t, cs, m, anns)),
{
    broadcast use vstd::seq_lib::group_to_multiset_ensures;

    if !checking_failed(p, f, t, cs, cs.len()) {
        silent_solver_reports_no_error(p, f, t, cs, m, anns);
        lemma_guarantees(p, f, t, anns, m);
        let s = unsorted_findings(p, f, t, cs, m, anns);
        let r = sorted::<Finding>(s);
        sorting_sorts::<Finding>(s);
        assert forall|k: int| 0 <= k < r.len() implies is_warning(p, anns, #[trigger] r[k]) by {
            assert(r.contains(r[k]));
            assert(r.to_multiset().count(r[k]) > 0);
            assert(s.contains(r[k]));
            let j = choose|j: int| 0 <= j < s.len() && s[j] == r[k];
            assert(is_warning(p, anns, s[j]));
        }
    }
}

proof fn lemma_wave<C: Checker>(p: &Program, inp: InputV<C>, wave: Seq<usize>, s: RunV, n: nat)
    requires
        !inp.caching,
    ensures
        after_wave(p, inp, wave, s, n).replays == s.replays,
    decreases n,
{
    if n > 0 {
        lemma_wave(p, inp, wave, s, (n - 1) as nat);
        assert(!is_hit(p, inp, wave[n - 1] as int));
    }
}

proof fn lemma_waves<C: Checker>(
    p: &Program,
    inp: InputV<C>,
    waves: Seq<Seq<usize>>,
    s: RunV,
    n: nat,
)
    requires
        !inp.caching,
    ensures
        after_waves(p, inp, waves, s, n).replays == s.replays,
    decreases n,
{
    if n > 0 {
        let k = (n - 1) as nat;
        lemma_waves(p, inp, waves, s, k);
        lemma_wave(p, inp, waves[n - 1], after_waves(p, inp, waves, s, k), waves[n - 1].len());
    }
}

proof fn lemma_report<C: Checker>(
    p: &Program,
    inp: InputV<C>,
    t: TableV,
    replays: Seq<Option<ReplayV>>,
    n: nat,
)
    requires
        nothing_satisfiable(inp.report),
        n <= replays.len(),
        forall|i: int| 0 <= i < n ==> (#[trigger] replays[i]) is None,
    ensures
        all_warnings(p, &inp.anns, report_upto(p, inp, t, replays, n).findings),
    decreases n,
{
    if n > 0 {
        lemma_report(p, inp, t, replays, (n - 1) as nat);
        assert(replays[n - 1] is None);
        let f = FuncId((n - 1) as u32);
        lemma_function(p, f, t, inp.checkers, inp.report, &inp.anns);
        let a = report_upto(p, inp, t, replays, (n - 1) as nat).findings;
        let b = function_findings(p, f, t, inp.checkers, inp.report, &inp.anns);
        let s = a + b;
        assert forall|k: int| 0 <= k < s.len() implies is_warning(p, &inp.anns, #[trigger] s[k]) by {
            if k < a.len() {
                assert(is_warning(p, &inp.anns, a[k]));
            } else {
                assert(is_warning(p, &inp.anns, b[k - a.len()]));
            }
        }
    }
}

/// A solver that confirms nothing, because it proves everything or because it gives up, never
/// makes an analysis report an error. All that it reports are annotated guarantees that are
/// not proved, and those are warnings; without annotated guarantees it reports nothing.
pub proof fn silent_analysis_reports_no_error<C: Checker>(p: &Program, inp: InputV<C>)
    requires
        nothing_satisfiable(inp.report),
        !inp.caching,
    ensures
        all_warnings(p, &inp.anns, analysis(p, inp).findings),
        forall|k: int|
            0 <= k < analysis(p, inp).findings.len() ==> (#[trigger] analysis(
                p,
                inp,
            ).findings[k]).severity == Severity::Warning,
        (forall|f: FuncId|
            (#[trigger] inp.anns.of(f)) matches Some(a) ==> a.ensures_@.len() == 0) ==> analysis(
            p,
            inp,
        ).findings.len() == 0,
{
    let waves = waves_of(&inp.sccs);
    let n = p.funcs@.len();
    lemma_waves(p, inp, waves, start_of(p, inp), waves.len());
    let s = fixpoint_of(p, inp);
    if inp.checkers.len() > 0 {
        lemma_report(p, inp, final_table(s.table, n), s.replays, n);
    }
    let r = analysis(p, inp).findings;
    assert forall|k: int| 0 <= k < r.len() implies (#[trigger] r[k]).severity == Severity::Warning by {
        assert(is_warning(p, &inp.anns, r[k]));
    }
    if r.len() > 0 {
        assert(is_warning(p, &inp.anns, r[0]));
        let (f, i) = choose|f: FuncId, i: int| warns_of(p, &inp.anns, f, i, r[0]);
        assert(inp.anns.of(f) is Some);
    }
}

} // verus!
