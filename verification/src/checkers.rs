//! The checkers that are run by default.

use vstd::prelude::*;
use crate::bounds::{
    bounds_candidates, bounds_encoding, fault_sites, site_candidate, site_candidates, BoundsChecker,
    FaultSiteV,
};
use crate::checker::{accepted, CandidateV, Checker, Obligation, ObligationV};
use crate::encode::EncodedV;
use crate::ir::{Callee, FuncId, Function, Op, Program};
use crate::leak::LeakChecker;
use crate::nil::{deref_candidate, deref_candidates, nil_candidates, nil_encoding, NilChecker};
use crate::query::{Query, QueryV, SatResult};
use crate::shared::{
    assumed, call_bounds, derefs, over_params, propagated_bounds, propagated_calls, Deref,
};
use crate::summary::{BoundV, Clause, ClauseV, Provenance, SummaryTable, TableV};
use crate::term::{mk_is_nil, t_not, TermV};

verus! {

/// One of the checkers of this library.
#[derive(Debug, Clone, Copy, PartialEq, Eq)]
pub enum AnyChecker {
    Nil(NilChecker),
    Bounds(BoundsChecker),
    Leak(LeakChecker),
}

impl Checker for AnyChecker {
    open spec fn name_of(&self) -> Seq<char> {
        match self {
            AnyChecker::Nil(c) => c.name_of(),
            AnyChecker::Bounds(c) => c.name_of(),
            AnyChecker::Leak(c) => c.name_of(),
        }
    }

    open spec fn version_of(&self) -> u32 {
        match self {
            AnyChecker::Nil(c) => c.version_of(),
            AnyChecker::Bounds(c) => c.version_of(),
            AnyChecker::Leak(c) => c.version_of(),
        }
    }

    open spec fn requires_asked(&self, p: &Program, f: FuncId, t: TableV) -> Seq<QueryV> {
        match self {
            AnyChecker::Nil(c) => c.requires_asked(p, f, t),
            AnyChecker::Bounds(c) => c.requires_asked(p, f, t),
            AnyChecker::Leak(c) => c.requires_asked(p, f, t),
        }
    }

    open spec fn requires_of(
        &self,
        p: &Program,
        f: FuncId,
        t: TableV,
        verdicts: Seq<SatResult>,
    ) -> Seq<ClauseV> {
        match self {
            AnyChecker::Nil(c) => c.requires_of(p, f, t, verdicts),
            AnyChecker::Bounds(c) => c.requires_of(p, f, t, verdicts),
            AnyChecker::Leak(c) => c.requires_of(p, f, t, verdicts),
        }
    }

    open spec fn ensures_asked(&self, p: &Program, f: FuncId, t: TableV) -> Seq<QueryV> {
        match self {
            AnyChecker::Nil(c) => c.ensures_asked(p, f, t),
            AnyChecker::Bounds(c) => c.ensures_asked(p, f, t),
            AnyChecker::Leak(c) => c.ensures_asked(p, f, t),
        }
    }

    open spec fn ensures_skipped(
        &self,
        p: &Program,
        f: FuncId,
        t: TableV,
        verdicts: Seq<SatResult>,
    ) -> Seq<bool> {
        match self {
            AnyChecker::Nil(c) => c.ensures_skipped(p, f, t, verdicts),
            AnyChecker::Bounds(c) => c.ensures_skipped(p, f, t, verdicts),
            AnyChecker::Leak(c) => c.ensures_skipped(p, f, t, verdicts),
        }
    }

    open spec fn ensures_of(
        &self,
        p: &Program,
        f: FuncId,
        t: TableV,
        verdicts: Seq<SatResult>,
    ) -> Seq<ClauseV> {
        match self {
            AnyChecker::Nil(c) => c.ensures_of(p, f, t, verdicts),
            AnyChecker::Bounds(c) => c.ensures_of(p, f, t, verdicts),
            AnyChecker::Leak(c) => c.ensures_of(p, f, t, verdicts),
        }
    }

    open spec fn obligations_of(&self, p: &Program, f: FuncId, t: TableV) -> Seq<ObligationV> {
        match self {
            AnyChecker::Nil(c) => c.obligations_of(p, f, t),
            AnyChecker::Bounds(c) => c.obligations_of(p, f, t),
            AnyChecker::Leak(c) => c.obligations_of(p, f, t),
        }
    }

    fn name(&self) -> (r: &'static str) {
        match self {
            AnyChecker::Nil(c) => c.name(),
            AnyChecker::Bounds(c) => c.name(),
            AnyChecker::Leak(c) => c.name(),
        }
    }

    fn version(&self) -> (r: u32) {
        match self {
            AnyChecker::Nil(c) => c.version(),
            AnyChecker::Bounds(c) => c.version(),
            AnyChecker::Leak(c) => c.version(),
        }
    }

    fn requires_queries(&self, p: &Program, f: FuncId, t: &SummaryTable) -> (r: Vec<Query>) {
        match self {
            AnyChecker::Nil(c) => c.requires_queries(p, f, t),
            AnyChecker::Bounds(c) => c.requires_queries(p, f, t),
            AnyChecker::Leak(c) => c.requires_queries(p, f, t),
        }
    }

    fn infer_requires(&self, p: &Program, f: FuncId, t: &SummaryTable, verdicts: &Vec<SatResult>) -> (r: Vec<
        Clause,
    >) {
        match self {
            AnyChecker::Nil(c) => c.infer_requires(p, f, t, verdicts),
            AnyChecker::Bounds(c) => c.infer_requires(p, f, t, verdicts),
            AnyChecker::Leak(c) => c.infer_requires(p, f, t, verdicts),
        }
    }

    fn ensures_queries(&self, p: &Program, f: FuncId, t: &SummaryTable) -> (r: Vec<Query>) {
        match self {
            AnyChecker::Nil(c) => c.ensures_queries(p, f, t),
            AnyChecker::Bounds(c) => c.ensures_queries(p, f, t),
            AnyChecker::Leak(c) => c.ensures_queries(p, f, t),
        }
    }

    fn skipped_ensures(&self, p: &Program, f: FuncId, t: &SummaryTable, verdicts: &Vec<SatResult>) -> (r: Vec<
        bool,
    >) {
        match self {
            AnyChecker::Nil(c) => c.skipped_ensures(p, f, t, verdicts),
            AnyChecker::Bounds(c) => c.skipped_ensures(p, f, t, verdicts),
            AnyChecker::Leak(c) => c.skipped_ensures(p, f, t, verdicts),
        }
    }

    fn infer_ensures(&self, p: &Program, f: FuncId, t: &SummaryTable, verdicts: &Vec<SatResult>) -> (r: Vec<
        Clause,
    >) {
        match self {
            AnyChecker::Nil(c) => c.infer_ensures(p, f, t, verdicts),
            AnyChecker::Bounds(c) => c.infer_ensures(p, f, t, verdicts),
            AnyChecker::Leak(c) => c.infer_ensures(p, f, t, verdicts),
        }
    }

    fn obligations(&self, p: &Program, f: FuncId, t: &SummaryTable) -> (r: Vec<Obligation>) {
        match self {
            AnyChecker::Nil(c) => c.obligations(p, f, t),
            AnyChecker::Bounds(c) => c.obligations(p, f, t),
            AnyChecker::Leak(c) => c.obligations(p, f, t),
        }
    }

    fn inference_fails(
        &self,
        p: &Program,
        f: FuncId,
        t: &SummaryTable,
        rv: &Vec<SatResult>,
        ev: &Vec<SatResult>,
    ) -> (r: bool) {
        false
    }

    fn checking_fails(&self, p: &Program, f: FuncId, t: &SummaryTable) -> (r: bool) {
        false
    }
}

/// The checkers that are run by default; their names are the valid names to ignore.
pub fn default_checkers() -> (r: Vec<AnyChecker>)
    ensures
        r@ == seq![
            AnyChecker::Nil(NilChecker),
            AnyChecker::Bounds(BoundsChecker),
            AnyChecker::Leak(LeakChecker),
        ],
{
    let mut v: Vec<AnyChecker> = Vec::new();
    v.push(AnyChecker::Nil(NilChecker));
    v.push(AnyChecker::Bounds(BoundsChecker));
    v.push(AnyChecker::Leak(LeakChecker));
    assert(v@ =~= seq![
        AnyChecker::Nil(NilChecker),
        AnyChecker::Bounds(BoundsChecker),
        AnyChecker::Leak(LeakChecker),
    ]);
    v
}

// ---- What requirements speak of ----

/// Whether a clause is inferred and speaks of parameters only.
pub open spec fn about_params(c: ClauseV) -> bool {
    c.provenance == Provenance::Inferred && over_params(c.term)
}

/// Whether that holds of the clauses of all candidates.
spec fn all_about_params(s: Seq<CandidateV>) -> bool {
    forall|i: int| 0 <= i < s.len() ==> about_params((#[trigger] s[i]).clause)
}

proof fn lemma_not_about(t: TermV)
    requires
        over_params(t),
    ensures
        over_params(t_not(t)),
{
    reveal_with_fuel(TermV::vars_into, 2);
    assert(t_not(t).vars() == t.vars());
}

proof fn lemma_deref_candidates(e: EncodedV, ds: Seq<Deref>, n: int)
    ensures
        all_about_params(deref_candidates(e, ds, n)),
    decreases n,
{
    if n > 0 {
        lemma_deref_candidates(e, ds, n - 1);
        if let Some(s) = e.value(ds[n - 1].subject) {
            if let Some(t) = mk_is_nil(s) {
                if over_params(t) {
                    lemma_not_about(t);
                }
            }
        }
        assert(deref_candidate(e, ds, ds[n - 1]) matches Some(c) ==> about_params(c.clause));
    }
}

proof fn lemma_propagated_bounds(
    e: EncodedV,
    tag: Seq<char>,
    known: Seq<TermV>,
    block: int,
    bs: Seq<BoundV>,
    n: int,
)
    ensures
        all_about_params(propagated_bounds(e, tag, known, block, bs, n)),
    decreases n,
{
    if n > 0 {
        lemma_propagated_bounds(e, tag, known, block, bs, n - 1);
    }
}

proof fn lemma_propagated_calls(
    f: &Function,
    e: EncodedV,
    tag: Seq<char>,
    t: TableV,
    ds: Seq<Deref>,
    k: int,
)
    ensures
        all_about_params(propagated_calls(f, e, tag, t, ds, k)),
    decreases k,
{
    if k > 0 {
        lemma_propagated_calls(f, e, tag, t, ds, k - 1);
        let s = f.sites()[k - 1];
        if let Op::Call { callee: Callee::Static(c), args, .. } = f.op_at(s) {
            let bs = call_bounds(e, t, c, args@);
            lemma_propagated_bounds(
                e,
                tag,
                assumed(e, ds, s.0 as int, s.1 as int),
                s.0 as int,
                bs,
                bs.len() as int,
            );
        }
    }
}

proof fn lemma_site_candidates(e: EncodedV, xs: Seq<FaultSiteV>, n: int)
    ensures
        all_about_params(site_candidates(e, xs, n)),
    decreases n,
{
    if n > 0 {
        lemma_site_candidates(e, xs, n - 1);
        if over_params(xs[n - 1].violation) {
            lemma_not_about(xs[n - 1].violation);
        }
        assert(site_candidate(e, xs[n - 1]) matches Some(c) ==> about_params(c.clause));
    }
}

proof fn lemma_accepted(s: Seq<CandidateV>, verdicts: Seq<SatResult>, n: int)
    requires
        all_about_params(s),
        n <= s.len(),
    ensures
        forall|i: int|
            0 <= i < accepted(s, verdicts, n).len() ==> about_params(
                #[trigger] accepted(s, verdicts, n)[i],
            ),
    decreases n,
{
    if n > 0 {
        lemma_accepted(s, verdicts, n - 1);
        assert(about_params(s[n - 1].clause));
        let before = accepted(s, verdicts, n - 1);
        assert forall|i: int| 0 <= i < accepted(s, verdicts, n).len() implies about_params(
            #[trigger] accepted(s, verdicts, n)[i],
        ) by {
            if i < before.len() {
                assert(about_params(before[i]));
            }
        }
    }
}

/// Whatever a checker infers that a function requires speaks of the function's parameters
/// only, so every caller can tell whether it meets it.
pub proof fn requirements_speak_of_parameters(
    c: AnyChecker,
    p: &Program,
    f: FuncId,
    t: TableV,
    verdicts: Seq<SatResult>,
)
    ensures
        forall|i: int|
            0 <= i < c.requires_of(p, f, t, verdicts).len() ==> about_params(
                #[trigger] c.requires_of(p, f, t, verdicts)[i],
            ),
{
    match c {
        AnyChecker::Nil(_) => {
            let cands = nil_candidates(p, f, t);
            if let Some((func, e)) = nil_encoding(p, f, t) {
                let ds = derefs(p, &func);
                lemma_deref_candidates(e, ds, ds.len() as int);
                lemma_propagated_calls(&func, e, "nil-deref"@, t, ds, func.sites().len() as int);
            }
            lemma_accepted(cands, verdicts, cands.len() as int);
        },
        AnyChecker::Bounds(_) => {
            let cands = bounds_candidates(p, f, t);
            if let Some((func, e)) = bounds_encoding(p, f) {
                let xs = fault_sites(p, &func, e);
                let n = func.sites().len() as int;
                lemma_site_candidates(e, xs, xs.len() as int);
                lemma_propagated_calls(&func, e, "bounds"@, t, Seq::empty(), n);
                lemma_propagated_calls(&func, e, "div-zero"@, t, Seq::empty(), n);
                lemma_propagated_calls(&func, e, "overflow"@, t, Seq::empty(), n);
            }
            lemma_accepted(cands, verdicts, cands.len() as int);
        },
        AnyChecker::Leak(_) => {},
    }
}

} // verus!
