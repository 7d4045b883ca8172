//! Checkers: what they infer, what they ask of the solver, and what is reported.
//!
//! A checker never talks to a solver. It lists the queries that it wants answered, and it
//! takes the answers, in that order. A missing answer counts as "unknown".

use vstd::prelude::*;
use crate::ir::{clone_pos, opt_pos, FuncId, Pos, PosV, Program};
use crate::query::{Query, QueryV, SatResult};
use crate::summary::{clauses, same_clause, Clause, ClauseV, SummaryTable, TableV};

verus! {

/// A possible violation. It is reported if its query is satisfiable.
#[derive(Debug, PartialEq, Eq)]
pub struct Obligation {
    pub tag: String,
    /// What is reported. It never holds a source position: only `pos` does.
    pub message: String,
    pub pos: Option<Pos>,
    pub query: Query,
}

/// The model of an [`Obligation`].
pub struct ObligationV {
    pub tag: Seq<char>,
    pub message: Seq<char>,
    pub pos: Option<Pos>,
    pub query: QueryV,
}

impl View for Obligation {
    type V = ObligationV;

    open spec fn view(&self) -> ObligationV {
        ObligationV {
            tag: self.tag@,
            message: self.message@,
            pos: self.pos,
            query: self.query@,
        }
    }
}

/// The models of obligations.
pub open spec fn obligations_v(v: Seq<Obligation>) -> Seq<ObligationV> {
    Seq::new(v.len(), |i: int| v[i]@)
}

/// How bad a finding is.
#[derive(Debug, Clone, Copy, PartialEq, Eq, PartialOrd, Ord, Structural)]
pub enum Severity {
    Error,
    Warning,
}

/// A block on the path to a violation.
#[derive(Debug, PartialEq, Eq)]
pub struct TraceStep {
    pub block: u32,
    pub pos: Option<Pos>,
}

/// The model of a [`TraceStep`].
pub struct TraceStepV {
    pub block: u32,
    pub pos: Option<PosV>,
}

impl View for TraceStep {
    type V = TraceStepV;

    open spec fn view(&self) -> TraceStepV {
        TraceStepV { block: self.block, pos: opt_pos(self.pos) }
    }
}

/// The models of a trace.
pub open spec fn trace_v(v: Seq<TraceStep>) -> Seq<TraceStepV> {
    Seq::new(v.len(), |i: int| v[i]@)
}

impl Clone for TraceStep {
    fn clone(&self) -> (r: TraceStep)
        ensures
            r == *self,
    {
        TraceStep { block: self.block, pos: clone_pos(&self.pos) }
    }
}

/// What is reported.
#[derive(Debug, PartialEq, Eq)]
pub struct Finding {
    pub checker: String,
    pub tag: String,
    pub func: String,
    pub pos: Option<Pos>,
    pub message: String,
    pub trace: Vec<TraceStep>,
    /// The parameters of the function in the model, by name.
    pub model: Vec<(String, String)>,
    pub severity: Severity,
}

/// The model of a [`Finding`].
pub struct FindingV {
    pub checker: Seq<char>,
    pub tag: Seq<char>,
    pub func: Seq<char>,
    pub pos: Option<PosV>,
    pub message: Seq<char>,
    pub trace: Seq<TraceStepV>,
    pub model: Seq<(Seq<char>, Seq<char>)>,
    pub severity: Severity,
}

/// The models of name and value pairs.
pub open spec fn pairs_v(v: Seq<(String, String)>) -> Seq<(Seq<char>, Seq<char>)> {
    Seq::new(v.len(), |i: int| (v[i].0@, v[i].1@))
}

impl View for Finding {
    type V = FindingV;

    open spec fn view(&self) -> FindingV {
        FindingV {
            checker: self.checker@,
            tag: self.tag@,
            func: self.func@,
            pos: opt_pos(self.pos),
            message: self.message@,
            trace: trace_v(self.trace@),
            model: pairs_v(self.model@),
            severity: self.severity,
        }
    }
}

/// The models of findings.
pub open spec fn findings_v(v: Seq<Finding>) -> Seq<FindingV> {
    Seq::new(v.len(), |i: int| v[i]@)
}

/// A copy of a trace.
pub fn copy_trace(v: &Vec<TraceStep>) -> (r: Vec<TraceStep>)
    ensures
        r@ == v@,
{
    let mut out: Vec<TraceStep> = Vec::new();
    let mut i: usize = 0;
    while i < v.len()
        invariant
            i <= v@.len(),
            out@ == v@.take(i as int),
        decreases v@.len() - i,
    {
        out.push(v[i].clone());
        i += 1;
        assert(v@.take(i as int) =~= v@.take(i - 1).push(v@[i - 1]));
    }
    assert(v@.take(i as int) =~= v@);
    out
}

/// A copy of name and value pairs.
pub fn copy_pairs(v: &Vec<(String, String)>) -> (r: Vec<(String, String)>)
    ensures
        pairs_v(r@) == pairs_v(v@),
{
    let mut out: Vec<(String, String)> = Vec::new();
    let mut i: usize = 0;
    while i < v.len()
        invariant
            i <= v@.len(),
            out@.len() == i,
            forall|j: int|
                0 <= j < i ==> (#[trigger] out@[j]).0@ == v@[j].0@ && out@[j].1@ == v@[j].1@,
        decreases v@.len() - i,
    {
        out.push((v[i].0.clone(), v[i].1.clone()));
        i += 1;
    }
    assert(pairs_v(out@) =~= pairs_v(v@));
    out
}

impl Clone for Finding {
    fn clone(&self) -> (r: Finding)
        ensures
            r@ == self@,
    {
        Finding {
            checker: self.checker.clone(),
            tag: self.tag.clone(),
            func: self.func.clone(),
            pos: clone_pos(&self.pos),
            message: self.message.clone(),
            trace: copy_trace(&self.trace),
            model: copy_pairs(&self.model),
            severity: self.severity,
        }
    }
}

/// The models of queries.
pub open spec fn queries_v(v: Seq<Query>) -> Seq<QueryV> {
    Seq::new(v.len(), |i: int| v[i]@)
}

/// The answer to query `i`; one that is missing is "unknown".
pub open spec fn verdict_at(v: Seq<SatResult>, i: int) -> SatResult {
    if 0 <= i < v.len() { v[i] } else { SatResult::Unknown }
}

/// The answer to query `i`.
pub fn verdict(v: &Vec<SatResult>, i: usize) -> (r: SatResult)
    ensures
        r == verdict_at(v@, i as int),
{
    if i < v.len() {
        v[i]
    } else {
        SatResult::Unknown
    }
}

/// The place in the answers of query `n`, or their end.
pub open spec fn answer_place(verdicts: Seq<SatResult>, n: int) -> int {
    if n <= verdicts.len() { n } else { verdicts.len() as int }
}

/// A clause that is inferred if its query is satisfiable.
#[derive(Debug, PartialEq, Eq)]
pub struct Candidate {
    pub clause: Clause,
    pub query: Query,
}

/// The model of a [`Candidate`].
pub struct CandidateV {
    pub clause: ClauseV,
    pub query: QueryV,
}

impl View for Candidate {
    type V = CandidateV;

    open spec fn view(&self) -> CandidateV {
        CandidateV { clause: self.clause@, query: self.query@ }
    }
}

/// The models of candidates.
pub open spec fn candidates_v(v: Seq<Candidate>) -> Seq<CandidateV> {
    Seq::new(v.len(), |i: int| v[i]@)
}

/// The queries of candidates.
pub open spec fn candidate_queries(s: Seq<CandidateV>) -> Seq<QueryV> {
    Seq::new(s.len(), |i: int| s[i].query)
}

/// `s` with `c` added unless it is there.
pub open spec fn pushed(s: Seq<ClauseV>, c: ClauseV) -> Seq<ClauseV> {
    if s.contains(c) { s } else { s.push(c) }
}

/// The clauses of those of the first `n` candidates whose query is satisfiable, each once.
pub open spec fn accepted(s: Seq<CandidateV>, verdicts: Seq<SatResult>, n: int) -> Seq<ClauseV>
    decreases n,
{
    if n <= 0 {
        Seq::empty()
    } else {
        let before = accepted(s, verdicts, n - 1);
        if verdict_at(verdicts, n - 1) == SatResult::Sat {
            pushed(before, s[n - 1].clause)
        } else {
            before
        }
    }
}

/// Adds `c` unless it is there.
pub fn push_clause(out: &mut Vec<Clause>, c: Clause)
    ensures
        clauses(final(out)@) == pushed(clauses(old(out)@), c@),
{
    let ghost before = clauses(out@);
    let mut i: usize = 0;
    while i < out.len()
        invariant
            i <= out@.len(),
            out@ == old(out)@,
            before == clauses(out@),
            forall|j: int| 0 <= j < i ==> #[trigger] before[j] != c@,
        decreases out@.len() - i,
    {
        assert(before[i as int] == out@[i as int]@);
        if same_clause(&out[i], &c) {
            assert(before.contains(c@));
            return;
        }
        i += 1;
    }
    assert(!before.contains(c@));
    let ghost cv = c@;
    out.push(c);
    assert(clauses(out@) =~= before.push(cv));
}

/// The queries of `v`.
pub fn list_queries(v: Vec<Candidate>) -> (r: Vec<Query>)
    ensures
        queries_v(r@) == candidate_queries(candidates_v(v@)),
{
    let mut out: Vec<Query> = Vec::new();
    let mut i: usize = 0;
    while i < v.len()
        invariant
            i <= v@.len(),
            out@.len() == i,
            forall|j: int| 0 <= j < i ==> (#[trigger] out@[j])@ == v@[j].query@,
        decreases v@.len() - i,
    {
        out.push(v[i].query.dup());
        i += 1;
    }
    assert(queries_v(out@) =~= candidate_queries(candidates_v(v@)));
    out
}

/// The clauses of those of `v` whose query is satisfiable, each once.
pub fn accept(v: &Vec<Candidate>, verdicts: &Vec<SatResult>) -> (r: Vec<Clause>)
    ensures
        clauses(r@) == accepted(candidates_v(v@), verdicts@, v@.len() as int),
{
    let mut out: Vec<Clause> = Vec::new();
    let ghost cs = candidates_v(v@);
    assert(clauses(out@) =~= Seq::<ClauseV>::empty());
    let mut i: usize = 0;
    while i < v.len()
        invariant
            i <= v@.len(),
            cs == candidates_v(v@),
            clauses(out@) == accepted(cs, verdicts@, i as int),
        decreases v@.len() - i,
    {
        assert(cs[i as int] == v@[i as int]@);
        if verdict(verdicts, i) == SatResult::Sat {
            push_clause(&mut out, v[i].clause.clone());
        }
        i += 1;
    }
    out
}

/// No clause is accepted without a satisfiable query, and none twice.
pub proof fn accepted_only_sat(s: Seq<CandidateV>, verdicts: Seq<SatResult>, n: int)
    requires
        0 <= n <= s.len(),
    ensures
        forall|k: int|
            #![trigger accepted(s, verdicts, n)[k]]
            0 <= k < accepted(s, verdicts, n).len() ==> exists|i: int|
                0 <= i < n && (#[trigger] s[i]).clause == accepted(s, verdicts, n)[k] && verdict_at(
                    verdicts,
                    i,
                ) == SatResult::Sat,
        forall|i: int, j: int|
            0 <= i < j < accepted(s, verdicts, n).len() ==> #[trigger] accepted(s, verdicts, n)[i]
                != #[trigger] accepted(s, verdicts, n)[j],
    decreases n,
{
    if n > 0 {
        accepted_only_sat(s, verdicts, n - 1);
        let before = accepted(s, verdicts, n - 1);
        let after = accepted(s, verdicts, n);
        assert forall|k: int| #![trigger after[k]] 0 <= k < after.len() implies exists|i: int|
            0 <= i < n && (#[trigger] s[i]).clause == after[k] && verdict_at(verdicts, i)
                == SatResult::Sat by {
            if k < before.len() {
                assert(after[k] == before[k]);
                let i = choose|i: int|
                    0 <= i < n - 1 && (#[trigger] s[i]).clause == before[k] && verdict_at(verdicts, i)
                        == SatResult::Sat;
                assert(s[i].clause == after[k]);
            } else {
                assert(s[n - 1].clause == after[k]);
            }
        }
    }
}

/// A checker. The engine hands it the summaries of all functions, its own included. A checker
/// that fails on a function says so, and what it gives back for that function does not count.
///
/// The ghost functions say what the methods give back. They have defaults for code that is not
/// verified; nothing that is proved of a checker with defaults holds of what it does.
pub trait Checker {
    /// The name of the checker.
    open spec fn name_of(&self) -> Seq<char> {
        Seq::empty()
    }

    /// The version of the checker's rules.
    open spec fn version_of(&self) -> u32 {
        1
    }

    /// What inferring the requirements of `f` asks.
    open spec fn requires_asked(&self, p: &Program, f: FuncId, t: TableV) -> Seq<QueryV> {
        Seq::empty()
    }

    /// What `f` requires, given the answers.
    open spec fn requires_of(
        &self,
        p: &Program,
        f: FuncId,
        t: TableV,
        verdicts: Seq<SatResult>,
    ) -> Seq<ClauseV> {
        Seq::empty()
    }

    /// The questions on what `f` guarantees.
    open spec fn ensures_asked(&self, p: &Program, f: FuncId, t: TableV) -> Seq<QueryV> {
        Seq::empty()
    }

    /// Which of those questions are skipped, given the answers so far; a question that is not
    /// marked is asked.
    open spec fn ensures_skipped(
        &self,
        p: &Program,
        f: FuncId,
        t: TableV,
        verdicts: Seq<SatResult>,
    ) -> Seq<bool> {
        Seq::empty()
    }

    /// What `f` guarantees, given the answers.
    open spec fn ensures_of(
        &self,
        p: &Program,
        f: FuncId,
        t: TableV,
        verdicts: Seq<SatResult>,
    ) -> Seq<ClauseV> {
        Seq::empty()
    }

    /// What may go wrong in `f`.
    open spec fn obligations_of(&self, p: &Program, f: FuncId, t: TableV) -> Seq<ObligationV> {
        Seq::empty()
    }

    /// Whether inferring the clauses of `f` fails, given the answers.
    open spec fn fails_inferring(
        &self,
        p: &Program,
        f: FuncId,
        t: TableV,
        rv: Seq<SatResult>,
        ev: Seq<SatResult>,
    ) -> bool {
        false
    }

    /// Whether looking for what may go wrong in `f` fails.
    open spec fn fails_checking(&self, p: &Program, f: FuncId, t: TableV) -> bool {
        false
    }

    /// The name of the checker.
    fn name(&self) -> (r: &'static str)
        ensures
            r@ == self.name_of(),
    ;

    /// The version of the checker's rules.
    fn version(&self) -> (r: u32)
        ensures
            r == self.version_of(),
    ;

    /// What inferring the requirements of `f` asks.
    fn requires_queries(&self, p: &Program, f: FuncId, t: &SummaryTable) -> (r: Vec<Query>)
        requires
            t.wf(),
        ensures
            queries_v(r@) == self.requires_asked(p, f, t@),
    ;

    /// What `f` requires of its callers, given the answers.
    fn infer_requires(&self, p: &Program, f: FuncId, t: &SummaryTable, verdicts: &Vec<SatResult>) -> (r: Vec<
        Clause,
    >)
        requires
            t.wf(),
        ensures
            clauses(r@) == self.requires_of(p, f, t@, verdicts@),
    ;

    /// The questions on what `f` guarantees.
    fn ensures_queries(&self, p: &Program, f: FuncId, t: &SummaryTable) -> (r: Vec<Query>)
        requires
            t.wf(),
        ensures
            queries_v(r@) == self.ensures_asked(p, f, t@),
    ;

    /// Which of the questions on what `f` guarantees are skipped, given the answers so far:
    /// those whose answer cannot matter any more, and those that depend on open ones.
    fn skipped_ensures(&self, p: &Program, f: FuncId, t: &SummaryTable, verdicts: &Vec<SatResult>) -> (r: Vec<
        bool,
    >)
        requires
            t.wf(),
        ensures
            r@ == self.ensures_skipped(p, f, t@, verdicts@),
    ;

    /// What `f` guarantees its callers, given the answers.
    fn infer_ensures(&self, p: &Program, f: FuncId, t: &SummaryTable, verdicts: &Vec<SatResult>) -> (r: Vec<
        Clause,
    >)
        requires
            t.wf(),
        ensures
            clauses(r@) == self.ensures_of(p, f, t@, verdicts@),
    ;

    /// What may go wrong in `f`.
    fn obligations(&self, p: &Program, f: FuncId, t: &SummaryTable) -> (r: Vec<Obligation>)
        requires
            t.wf(),
        ensures
            obligations_v(r@) == self.obligations_of(p, f, t@),
    ;

    /// Whether inferring the clauses of `f` fails, given the answers `rv` on what it requires
    /// and `ev` on what it guarantees.
    fn inference_fails(
        &self,
        p: &Program,
        f: FuncId,
        t: &SummaryTable,
        rv: &Vec<SatResult>,
        ev: &Vec<SatResult>,
    ) -> (r: bool)
        requires
            t.wf(),
        ensures
            r == self.fails_inferring(p, f, t@, rv@, ev@),
    ;

    /// Whether looking for what may go wrong in `f` fails.
    fn checking_fails(&self, p: &Program, f: FuncId, t: &SummaryTable) -> (r: bool)
        requires
            t.wf(),
        ensures
            r == self.fails_checking(p, f, t@),
    ;
}

} // verus!
