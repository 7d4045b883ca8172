#![allow(dead_code)]

use std::collections::{BTreeMap, BTreeSet};

use goverify::annotations::{AnnClause, Annotations, FuncAnnotations};
use goverify::answers::Answers;
use goverify::checker::{Checker, Finding, Obligation, Severity, TraceStep};
use goverify::checkers::default_checkers;
use goverify::contracts::{CONTRACT, UNVERIFIED_ANNOTATION};
use goverify::dump::{dump_findings, dump_prepass, dump_summaries};
use goverify::effects::{Effects, LockOp};
use goverify::encode::encode_func;
use goverify::engine::{analyze, analyze_full, uses_cache, waves, Analysis, EngineConfig, Options};
use goverify::ir::{
    BinOpKind, Block, CallGraph, Callee, ConstVal, FuncDecl, FuncId, Function, Instr, Op, Pos,
    Program, Sccs, TypeEntry, TypeId, TypeKind, TypeTable, ValueId, ValueInfo, ValueKind,
};
use goverify::query::{Query, SatResult};
use goverify::query_cache::CachedOutcome;
use goverify::scc_cache::{CacheConfigKey, SccCache, SccEntry, SolverLimits};
use goverify::shared::params_only;
use goverify::summary::{Clause, Formula, Provenance, Summary, SummaryTable};
use goverify::term::{ptr_is_nil, ptr_sort, BvBinOp, BvCmpOp, Sort, Term};

/// The functions that a program may hold, in the order of their ids.
const NAMES: [&str; 18] = [
    "(*sync.Mutex).Lock", "t.A", "t.B", "t.Big", "t.C", "t.Callee", "t.Caller", "t.EnsF", "t.Even",
    "t.F", "t.G", "t.Leaf", "t.Mid", "t.Odd", "t.Small", "t.Top", "t.Untouched", "unknown.G",
];

fn call(name: &str) -> Ins {
    call_static(name, 0, 0, vec![])
}

/// A function of one block that runs this code and returns.
fn straight(name: &'static str, code: Vec<Ins>) -> Fun {
    let mut code = code;
    code.push(ret(vec![]));
    fun(name, vec![], vec![block(code, vec![])])
}

fn untyped(funs: Vec<Fun>) -> Program {
    program(vec![], funs)
}

/// The program of t.F alone, which does nothing.
fn lone() -> Program {
    let mut p = untyped(vec![straight("t.F", vec![])]);
    p.funcs.retain(|f| f.name == "t.F");
    p
}

fn analyzed(p: &Program, opts: &Options) -> Analysis {
    let (graph, sccs) = calls(p);
    assert!(sccs.check(p.funcs.len()));
    analyze(p, &graph, &sccs, opts)
}

fn summary_of<'a>(a: &'a Analysis, name: &str) -> &'a Summary {
    &a.summaries[fid(name).0 as usize]
}

/// The analysis of `p` once every question is answered by `solver`.
fn run(
    p: &Program,
    cfg: &EngineConfig,
    checkers: &Vec<impl Checker>,
    found: &Vec<Option<SccEntry>>,
    solver: &dyn Fn(&str) -> CachedOutcome,
) -> Analysis {
    let (graph, sccs) = calls(p);
    assert!(sccs.check(p.funcs.len()));
    let mut infer = Answers::new();
    let mut report = Answers::new();
    loop {
        let a = analyze_full(p, &graph, &sccs, cfg, checkers, found, &infer, &report);
        let open = (infer.open(&a.asked_infer), report.open(&a.asked_findings));
        if open.0.is_empty() && open.1.is_empty() {
            return a;
        }
        for text in open.0 {
            let v = solver(&text);
            infer.set(text, v);
        }
        for text in open.1 {
            let v = solver(&text);
            report.set(text, v);
        }
    }
}

fn cold(p: &Program) -> Vec<Option<SccEntry>> {
    calls(p).1.schedule.iter().map(|_| None).collect()
}

fn unknown(_: &str) -> CachedOutcome {
    CachedOutcome::Unknown
}

fn always_sat(_: &str) -> CachedOutcome {
    CachedOutcome::Sat { model: None }
}

#[test]
fn effects_propagate_bottom_up() {
    let p = untyped(vec![
        straight("t.Leaf", vec![call("(*sync.Mutex).Lock")]),
        straight("t.Mid", vec![call("t.Leaf")]),
        straight("t.Top", vec![call("t.Mid")]),
    ]);
    let a = analyzed(&p, &Options::default());
    let ops = &summary_of(&a, "t.Top").effects.lock_ops;
    assert!(
        (0..ops.len()).any(|i| ops.value_at(i).contains(LockOp::Lock)),
        "the lock must propagate from Leaf to Mid to Top"
    );
    assert!(!a.prepass[fid("t.Top").0 as usize].concurrency_clean);
}

#[test]
fn external_callee_gets_havoc_summary() {
    let p = untyped(vec![straight("t.F", vec![call("unknown.G")])]);
    let a = analyzed(&p, &Options::default());
    assert!(
        summary_of(&a, "t.F").effects.same(&Effects::top()),
        "the effects of an unknown callee must flow into the caller"
    );
    assert_eq!(summary_of(&a, "unknown.G").provenance, Provenance::Havoc);
}

#[test]
fn recursive_scc_converges_without_widening() {
    let p = untyped(vec![
        straight("t.Even", vec![call("t.Odd")]),
        straight("t.Odd", vec![call("t.Even")]),
    ]);
    let a = analyzed(&p, &Options::default());
    assert_eq!(summary_of(&a, "t.Even").provenance, Provenance::Inferred);
    assert!(summary_of(&a, "t.Even").effects.is_empty());
}

/// Two functions that call each other, one of which locks.
fn even_odd() -> Program {
    untyped(vec![
        straight("t.Even", vec![call("(*sync.Mutex).Lock"), call("t.Odd")]),
        straight("t.Odd", vec![call("t.Even")]),
    ])
}

#[test]
fn widening_kicks_in_after_k_rounds() {
    let p = even_odd();
    let a0 = analyzed(&p, &Options { widen_after: 0 });
    assert_eq!(summary_of(&a0, "t.Even").provenance, Provenance::Havoc);
    let a3 = analyzed(&p, &Options::default());
    assert_eq!(summary_of(&a3, "t.Even").provenance, Provenance::Inferred);
}

// ---- Checkers for one purpose each ----

fn trivial(tag: &str, message: &str) -> Obligation {
    Obligation {
        tag: tag.to_string(),
        message: message.to_string(),
        pos: None,
        query: Query { consts: vec![], asserts: vec![Term::bool_lit(true)] },
    }
}

fn nonnil(name: &str) -> Clause {
    let v = Term::var(name, ptr_sort());
    Clause {
        tag: "nil-deref".to_string(),
        formula: Formula { term: Term::not(ptr_is_nil(v).unwrap()).unwrap() },
        provenance: Provenance::Inferred,
    }
}

#[derive(Clone, Copy, PartialEq)]
enum Probe {
    /// One obligation for each function.
    Fake,
    /// One guarantee for each function.
    Ensures,
    /// One requirement for each function.
    Requires,
    /// Nothing.
    Idle,
    /// One obligation for each function that can be encoded.
    EncodeGated,
    /// What an annotation says too, and an obligation for t.Caller.
    Duplicate,
    /// One obligation for each function but this one, on which it fails.
    FailsOn(&'static str),
    /// One guarantee for each function but this one, on which it fails.
    FailsInferring(&'static str),
    /// One guarantee for each function. It fails on t.Even as long as t.Odd guarantees nothing.
    FailsAtFirst,
    /// One guarantee for each function. It fails as long as its question has no answer.
    FailsUnanswered,
}

impl Checker for Probe {
    fn name(&self) -> &'static str {
        match self {
            Probe::Fake => "fake",
            Probe::Ensures => "ensures-probe",
            Probe::Requires => "requires-probe",
            Probe::Idle => "noop",
            Probe::EncodeGated => "encode-gated",
            Probe::Duplicate => "dupchecker",
            _ => "failing",
        }
    }

    fn version(&self) -> u32 {
        1
    }

    fn requires_queries(&self, _: &Program, _: FuncId, _: &SummaryTable) -> Vec<Query> {
        if *self == Probe::FailsUnanswered { vec![trivial("", "").query] } else { vec![] }
    }

    fn infer_requires(
        &self,
        _: &Program,
        _: FuncId,
        _: &SummaryTable,
        _: &Vec<SatResult>,
    ) -> Vec<Clause> {
        match self {
            Probe::Requires => vec![nonnil("p0")],
            Probe::Duplicate => {
                let mut c = nonzero("unused").clause;
                c.tag = "dupchecker-fact".to_string();
                c.provenance = Provenance::Inferred;
                vec![c]
            }
            _ => vec![],
        }
    }

    fn ensures_queries(&self, _: &Program, _: FuncId, _: &SummaryTable) -> Vec<Query> {
        vec![]
    }

    fn skipped_ensures(
        &self,
        _: &Program,
        _: FuncId,
        _: &SummaryTable,
        _: &Vec<SatResult>,
    ) -> Vec<bool> {
        vec![]
    }

    fn infer_ensures(
        &self,
        _: &Program,
        _: FuncId,
        _: &SummaryTable,
        _: &Vec<SatResult>,
    ) -> Vec<Clause> {
        match self {
            Probe::Ensures
            | Probe::FailsInferring(_)
            | Probe::FailsAtFirst
            | Probe::FailsUnanswered => vec![nonnil("r0")],
            _ => vec![],
        }
    }

    fn obligations(&self, p: &Program, f: FuncId, _: &SummaryTable) -> Vec<Obligation> {
        match self {
            Probe::Fake | Probe::FailsOn(_) => vec![trivial("fake", "fake finding")],
            Probe::EncodeGated if encode_func(p, f).is_ok() => {
                vec![trivial("encode-gated", "encodable")]
            }
            Probe::Duplicate if p.func_name(f) == "t.Caller" => vec![trivial(
                "dupchecker-fact",
                "call to t.Callee violates its dupchecker-fact requirement",
            )],
            _ => vec![],
        }
    }

    fn inference_fails(
        &self,
        p: &Program,
        f: FuncId,
        t: &SummaryTable,
        rv: &Vec<SatResult>,
        _: &Vec<SatResult>,
    ) -> bool {
        match self {
            Probe::FailsInferring(name) => p.func_name(f) == *name,
            Probe::FailsAtFirst => {
                p.func_name(f) == "t.Even"
                    && t.get(fid("t.Odd")).is_some_and(|s| s.ensures_.is_empty())
            }
            Probe::FailsUnanswered => rv[0] == SatResult::Unknown,
            _ => false,
        }
    }

    fn checking_fails(&self, p: &Program, f: FuncId, _: &SummaryTable) -> bool {
        matches!(self, Probe::FailsOn(name) if p.func_name(f) == *name)
    }
}

#[test]
fn checker_ensures_land_in_summaries() {
    let p = untyped(vec![straight("t.F", vec![])]);
    let a = run(&p, &EngineConfig::default(), &vec![Probe::Ensures], &cold(&p), &unknown);
    let s = summary_of(&a, "t.F");
    assert_eq!(s.ensures_.len(), 1, "{s:?}");
    assert_eq!(s.ensures_[0].tag, "nil-deref", "{s:?}");
}

#[test]
fn widening_drops_ensures() {
    let p = even_odd();
    let mut cfg = EngineConfig::default();
    cfg.opts = Options { widen_after: 0 };
    let a = run(&p, &cfg, &vec![Probe::Ensures], &cold(&p), &unknown);
    let s = summary_of(&a, "t.Even");
    assert_eq!(s.provenance, Provenance::Havoc, "{s:?}");
    assert!(s.ensures_.is_empty(), "widening must drop ensures: {s:?}");
}

fn annotations(of: Vec<(&str, Vec<AnnClause>, Vec<AnnClause>)>) -> Annotations {
    let mut funcs: Vec<Option<FuncAnnotations>> = NAMES.iter().map(|_| None).collect();
    for (name, requires_, ensures_) in of {
        funcs[fid(name).0 as usize] =
            Some(FuncAnnotations { requires_, ensures_, ignores: vec![] });
    }
    Annotations { funcs, findings: vec![] }
}

fn annotated(term: Term, text: &str, pos: Option<Pos>) -> AnnClause {
    AnnClause {
        clause: Clause {
            tag: CONTRACT.to_string(),
            formula: Formula { term },
            provenance: Provenance::Annotated,
        },
        text: text.to_string(),
        pos,
    }
}

fn with_annotations(anns: Annotations) -> EngineConfig {
    let mut cfg = EngineConfig::default();
    cfg.annotations = anns;
    cfg
}

#[test]
fn merge_dedups_duplicate_annotated_requires_keeps_distinct_one() {
    let p = untyped(vec![fun("t.F", vec![(1, 0)], vec![block(vec![ret(vec![])], vec![])])]);
    let p0 = || Term::var("p0", ptr_sort());
    let dup = || Term::not(ptr_is_nil(p0()).unwrap()).unwrap();
    let new = || ptr_is_nil(p0()).unwrap();
    let cfg = with_annotations(annotations(vec![(
        "t.F",
        vec![annotated(dup(), "x != nil", None), annotated(new(), "another formula", None)],
        vec![],
    )]));
    let a = run(&p, &cfg, &vec![Probe::Requires], &cold(&p), &unknown);
    let reqs = &summary_of(&a, "t.F").requires_;
    assert_eq!(reqs.len(), 2, "the duplicate collapses, the other is added: {reqs:?}");
    let kept = reqs.iter().find(|c| c.formula.term.same(&dup())).expect("present");
    assert_eq!(kept.tag, "nil-deref", "the inferred clause stays: {kept:?}");
    assert_eq!(kept.provenance, Provenance::Inferred);
    let added = reqs.iter().find(|c| c.formula.term.same(&new())).expect("present");
    assert_eq!(added.tag, CONTRACT);
    assert_eq!(added.provenance, Provenance::Annotated);
}

#[test]
fn widening_preserves_annotated_requires() {
    let p = even_odd();
    let term = || Term::not(ptr_is_nil(Term::var("p0", ptr_sort())).unwrap()).unwrap();
    let mut cfg = with_annotations(annotations(vec![(
        "t.Even",
        vec![annotated(term(), "p != nil", None)],
        vec![],
    )]));
    cfg.opts = Options { widen_after: 0 };
    let none: Vec<Probe> = vec![];
    let a = run(&p, &cfg, &none, &cold(&p), &unknown);
    let s = summary_of(&a, "t.Even");
    assert_eq!(s.provenance, Provenance::Havoc, "{s:?}");
    assert!(s.effects.same(&Effects::top()), "{s:?}");
    assert_eq!(s.requires_, vec![annotated(term(), "p != nil", None).clause], "{s:?}");
}

// ---- Findings ----

#[test]
fn findings_pass_panic_is_caught_and_other_functions_survive() {
    let p = untyped(vec![
        straight("t.A", vec![]),
        straight("t.B", vec![]),
        straight("t.C", vec![]),
    ]);
    let cfg = EngineConfig::default();
    let a = run(&p, &cfg, &vec![Probe::FailsOn("t.B")], &cold(&p), &always_sat);
    let found: BTreeSet<&str> = a.findings.iter().map(|f| f.func.as_str()).collect();
    assert!(found.contains("t.A"), "survives the failure on t.B: {:?}", a.findings);
    assert!(found.contains("t.C"), "survives the failure on t.B: {:?}", a.findings);
    assert!(!found.contains("t.B"), "no findings where the checker failed: {:?}", a.findings);
    assert!(a.diagnostics.iter().any(|d| d.contains("t.B")), "{:?}", a.diagnostics);
    let note = "internal: panic while checking t.B; findings for this function dropped";
    assert_eq!(a.diagnostics, vec![note.to_string()]);
    let whole = run(&p, &cfg, &vec![Probe::Fake], &cold(&p), &always_sat);
    assert_eq!(whole.summaries, a.summaries);
    assert_eq!(whole.findings.len(), a.findings.len() + 1);
}

#[test]
fn a_failed_analysis_gives_a_havoc_summary() {
    let p = untyped(vec![straight("t.A", vec![]), straight("t.B", vec![])]);
    let cfg = EngineConfig::default();
    let a = run(&p, &cfg, &vec![Probe::FailsInferring("t.B")], &cold(&p), &unknown);
    let b = summary_of(&a, "t.B");
    assert_eq!(b.provenance, Provenance::Havoc, "{b:?}");
    assert!(b.ensures_.is_empty() && b.requires_.is_empty());
    assert_eq!(b.effects, Effects::top());
    assert_eq!(summary_of(&a, "t.A").ensures_.len(), 1, "others are analysed");
    let note = "internal: panic while analyzing t.B; havoc summary substituted";
    assert_eq!(a.diagnostics, vec![note.to_string()]);
}

#[test]
fn a_failure_in_one_round_is_said_and_costs_that_round() {
    let p = untyped(vec![
        straight("t.Even", vec![call("t.Odd")]),
        straight("t.Odd", vec![call("t.Even")]),
    ]);
    let cfg = EngineConfig::default();
    let a = run(&p, &cfg, &vec![Probe::FailsAtFirst], &cold(&p), &unknown);
    let even = summary_of(&a, "t.Even");
    assert_eq!(even.provenance, Provenance::Inferred, "{even:?}");
    assert_eq!(even.ensures_.len(), 1, "{even:?}");
    let note = "internal: panic while analyzing t.Even; havoc summary substituted";
    assert_eq!(a.diagnostics, vec![note.to_string()]);
}

#[test]
fn a_failure_that_an_answer_prevents_costs_nothing() {
    let p = untyped(vec![straight("t.A", vec![])]);
    let cfg = EngineConfig::default();
    let a = run(&p, &cfg, &vec![Probe::FailsUnanswered], &cold(&p), &always_sat);
    let s = summary_of(&a, "t.A");
    assert_eq!(s.provenance, Provenance::Inferred, "{s:?}");
    assert_eq!(s.ensures_.len(), 1, "{s:?}");
    assert!(a.diagnostics.is_empty(), "{:?}", a.diagnostics);
    let b = run(&p, &cfg, &vec![Probe::FailsUnanswered], &cold(&p), &unknown);
    assert_eq!(summary_of(&b, "t.A").provenance, Provenance::Havoc);
}

#[test]
fn switching_a_checker_off_changes_nothing_in_the_analysis() {
    let mut f = caller();
    f.aux = vec![int_const(1, 1, 0)];
    let p = with_int_type(vec![f]);
    let cfg = |ignores: Vec<String>| {
        let mut anns = annotations(vec![("t.Callee", vec![nonzero("p != 0")], vec![])]);
        for x in anns.funcs.iter_mut().flatten() {
            x.ignores = ignores.clone();
        }
        with_annotations(anns)
    };
    let off = vec![CONTRACT.to_string(), "nil-deref".to_string()];
    let a = run(&p, &cfg(vec![]), &default_checkers(), &cold(&p), &always_sat);
    let b = run(&p, &cfg(off), &default_checkers(), &cold(&p), &always_sat);
    assert_eq!(by(&a, CONTRACT).len(), 1, "{:?}", a.findings);
    assert_eq!(a, b);
}

#[test]
fn finding_model_keeps_only_param_bindings() {
    let p = lone();
    let sat = |_: &str| CachedOutcome::Sat {
        model: Some("g0 -> true\np0 -> (ptr-nil)\nv3 -> 7\n".to_string()),
    };
    let a = run(&p, &EngineConfig::default(), &vec![Probe::Fake], &cold(&p), &sat);
    assert_eq!(a.findings.len(), 1);
    assert_eq!(a.findings[0].model, vec![("p0".to_string(), "(ptr-nil)".to_string())]);
}

#[test]
fn sat_finding_with_model_gets_a_trace_but_model_none_stays_traceless() {
    let p = lone();
    let cfg = EngineConfig::default();
    let sat = |_: &str| CachedOutcome::Sat { model: Some("g0 -> true\n".to_string()) };
    let with_model = run(&p, &cfg, &vec![Probe::Fake], &cold(&p), &sat);
    assert_eq!(with_model.findings.len(), 1);
    assert_eq!(with_model.findings[0].trace, vec![TraceStep { block: 0, pos: None }]);
    let without = run(&p, &cfg, &vec![Probe::Fake], &cold(&p), &always_sat);
    assert_eq!(without.findings.len(), 1);
    assert!(without.findings[0].trace.is_empty(), "{:?}", without.findings);
}

#[test]
fn findings_pass_is_sequential_and_deterministic() {
    let p = lone();
    let cfg = EngineConfig::default();
    let a1 = run(&p, &cfg, &vec![Probe::Fake], &cold(&p), &always_sat);
    let a2 = run(&p, &cfg, &vec![Probe::Fake], &cold(&p), &always_sat);
    assert_eq!(a1.findings.len(), 1, "{:?}", a1.findings);
    assert_eq!(a1.findings[0].checker, "fake");
    assert_eq!(a1.findings, a2.findings);
}

/// A block of so many additions that its encoding has too many assertions.
fn oversized(name: &'static str) -> Fun {
    let mut code: Vec<Ins> =
        (2..2 + 50_000).map(|r| binop(r, 1, BinOpKind::Add, 1, 1)).collect();
    code.push(ret(vec![]));
    fun(name, vec![(1, 1)], vec![block(code, vec![])])
}

fn with_int_type(funs: Vec<Fun>) -> Program {
    program(vec![basic("int")], funs)
}

#[test]
fn encode_failure_surfaces_one_engine_diagnostic_and_no_finding() {
    let p = with_int_type(vec![straight("t.Small", vec![]), oversized("t.Big")]);
    let cfg = EngineConfig::default();
    let a = run(&p, &cfg, &vec![Probe::EncodeGated], &cold(&p), &always_sat);
    let big: Vec<&String> = a.diagnostics.iter().filter(|d| d.contains("t.Big")).collect();
    assert_eq!(big.len(), 1, "one diagnostic: {:?}", a.diagnostics);
    assert!(big[0].contains("assertions"), "{big:?}");
    let found: BTreeSet<&str> = a.findings.iter().map(|f| f.func.as_str()).collect();
    assert!(!found.contains("t.Big"), "{:?}", a.findings);
    assert!(found.contains("t.Small"), "{:?}", a.findings);
}

// ---- Contracts ----

/// p0 != 0
fn nonzero(text: &str) -> AnnClause {
    let p0 = Term::var("p0", Sort::BitVec(64));
    annotated(Term::not(Term::eq(p0, Term::bv_lit(64, 0)).unwrap()).unwrap(), text, None)
}

/// t.Caller calls t.Callee with its value 1.
fn caller() -> Fun {
    fun(
        "t.Caller",
        vec![],
        vec![block(vec![call_static("t.Callee", 0, 0, vec![1]), ret(vec![])], vec![])],
    )
}

fn by<'a>(a: &'a Analysis, checker: &str) -> Vec<&'a Finding> {
    a.findings.iter().filter(|f| f.checker == checker).collect()
}

#[test]
fn contract_obligation_fires_on_violating_call_site_constant() {
    let mut f = caller();
    f.aux = vec![int_const(1, 1, 0)];
    let p = with_int_type(vec![f]);
    let cfg = with_annotations(annotations(vec![("t.Callee", vec![nonzero("p != 0")], vec![])]));
    let a = run(&p, &cfg, &vec![Probe::Idle], &cold(&p), &solve_text);
    let found = by(&a, CONTRACT);
    assert_eq!(found.len(), 1, "exactly one contract finding: {:?}", a.findings);
    assert_eq!(found[0].severity, Severity::Error);
    assert!(found[0].message.contains("p != 0"), "{:?}", found[0]);
}

#[test]
fn contract_obligation_silent_when_caller_already_requires_it() {
    let mut f = caller();
    f.params = vec![(1, 1)];
    let p = with_int_type(vec![f]);
    let cfg = with_annotations(annotations(vec![
        ("t.Callee", vec![nonzero("p != 0")], vec![]),
        ("t.Caller", vec![nonzero("x != 0")], vec![]),
    ]));
    let a = run(&p, &cfg, &vec![Probe::Idle], &cold(&p), &solve_text);
    assert!(by(&a, CONTRACT).is_empty(), "{:?}", a.findings);
}

#[test]
fn contract_obligation_skips_when_checker_already_infers_the_same_formula() {
    let mut f = caller();
    f.aux = vec![int_const(1, 1, 0)];
    let p = with_int_type(vec![f]);
    let cfg = with_annotations(annotations(vec![("t.Callee", vec![nonzero("p != 0")], vec![])]));
    let a = run(&p, &cfg, &vec![Probe::Duplicate], &cold(&p), &solve_text);
    assert!(by(&a, CONTRACT).is_empty(), "{:?}", a.findings);
    assert_eq!(by(&a, "dupchecker").len(), 1, "{:?}", a.findings);
}

/// Types: 1 is `int`, 2 is `func() int`.
fn with_signature(funs: Vec<Fun>) -> Program {
    let sig = TypeKind::Signature { params: vec![], results: vec![TypeId(1)] };
    program(vec![basic("int"), entry("func() int", sig)], funs)
}

/// t.F() int { return 5 }
fn returns_five() -> Program {
    let mut f = fun_aux("t.F", vec![int_const(1, 1, 5)], vec![block(vec![ret(vec![1])], vec![])]);
    f.sig = 2;
    with_signature(vec![f])
}

/// r0 == n
fn result_is(n: u128, text: &str, pos: Option<Pos>) -> AnnClause {
    let r0 = Term::var("r0", Sort::BitVec(64));
    annotated(Term::eq(r0, Term::bv_lit(64, n)).unwrap(), text, pos)
}

#[test]
fn verify_ensures_silent_when_the_body_proves_the_clause() {
    let p = returns_five();
    let cfg =
        with_annotations(annotations(vec![("t.F", vec![], vec![result_is(5, "r == 5", None)])]));
    let a = run(&p, &cfg, &vec![Probe::Idle], &cold(&p), &solve_text);
    assert!(by(&a, UNVERIFIED_ANNOTATION).is_empty(), "{:?}", a.findings);
}

#[test]
fn verify_ensures_warns_when_the_body_violates_the_clause() {
    let pos = || Some(Pos { file: "t.go".to_string(), line: 7, col: 2 });
    let p = returns_five();
    let cfg =
        with_annotations(annotations(vec![("t.F", vec![], vec![result_is(6, "r == 6", pos())])]));
    let a = run(&p, &cfg, &vec![Probe::Idle], &cold(&p), &solve_text);
    let warnings = by(&a, UNVERIFIED_ANNOTATION);
    assert_eq!(warnings.len(), 1, "{:?}", a.findings);
    assert_eq!(warnings[0].severity, Severity::Warning);
    assert_eq!(warnings[0].pos, pos(), "at the annotation's own position");
    assert!(!warnings[0].message.contains(".go:"), "no position in the message: {:?}", warnings[0]);
}

/// 0 < v
fn positive(name: &str, text: &str) -> AnnClause {
    let v = Term::var(name, Sort::BitVec(64));
    annotated(Term::bv_compare(BvCmpOp::Slt, Term::bv_lit(64, 0), v).unwrap(), text, None)
}

#[test]
fn verify_ensures_uses_own_requires_as_an_assumption() {
    let mut g = fun("t.G", vec![(1, 1)], vec![block(vec![ret(vec![1])], vec![])]);
    g.sig = 2;
    let p = with_signature(vec![g]);
    let cfg = with_annotations(annotations(vec![(
        "t.G",
        vec![positive("p0", "x > 0")],
        vec![positive("r0", "ret > 0")],
    )]));
    let a = run(&p, &cfg, &vec![Probe::Idle], &cold(&p), &solve_text);
    assert!(by(&a, UNVERIFIED_ANNOTATION).is_empty(), "{:?}", a.findings);
    let alone = with_annotations(annotations(vec![(
        "t.G",
        vec![],
        vec![positive("r0", "ret > 0")],
    )]));
    let b = run(&p, &alone, &vec![Probe::Idle], &cold(&p), &solve_text);
    assert_eq!(by(&b, UNVERIFIED_ANNOTATION).len(), 1, "not without it: {:?}", b.findings);
}

// ---- Caching ----

fn cache(checkers: Vec<(String, u32)>) -> SccCache {
    let limits = SolverLimits { timeout_ms: 100, mem_mb: 1024 };
    let key = CacheConfigKey {
        solver_identity: "small".to_string(),
        findings_identity: "small".to_string(),
        infer_limits: limits,
        findings_limits: limits,
        widen_after: 3,
        checkers,
        annotation_version: 0,
    };
    SccCache::open("/cache".to_string(), &key)
}

fn of_all() -> Vec<(String, u32)> {
    default_checkers().iter().map(|c| (c.name().to_string(), c.version())).collect()
}

type Disk = BTreeMap<String, Vec<u8>>;

/// One run of all checkers against a disk, on which it leaves what it found out.
fn cached_run(p: &Program, c: &SccCache, disk: &mut Disk) -> Analysis {
    cached_run_with(p, EngineConfig::default(), default_checkers(), c, disk)
}

fn cached_run_with(
    p: &Program,
    mut cfg: EngineConfig,
    checkers: Vec<impl Checker>,
    c: &SccCache,
    disk: &mut Disk,
) -> Analysis {
    cfg.cache_dir = Some("/cache".to_string());
    assert!(uses_cache(&cfg, checkers.len()));
    let (_, sccs) = calls(p);
    let keys = c.keys(p, &sccs);
    let found = keys.iter().map(|k| c.get(disk.get(&c.path(k)).cloned())).collect();
    let a = run(p, &cfg, &checkers, &found, &solve_text);
    for (i, e) in &a.fresh {
        let w = c.put(&keys[*i], e, 1);
        disk.insert(w.dest, w.bytes);
    }
    a
}

/// t.F(p *T) dereferences p; t.G(q *T) calls t.F(q); t.Caller calls t.F(nil).
fn nil_program() -> Program {
    let mut caller = straight("t.Caller", vec![at(9, call_static("t.F", 0, 0, vec![1]))]);
    caller.aux = vec![nil(1)];
    let f = fun("t.F", vec![(1, 2)], vec![block(vec![field_addr_on(2, 1), ret(vec![])], vec![])]);
    let g = fun(
        "t.G",
        vec![(1, 2)],
        vec![block(vec![call_static("t.F", 0, 0, vec![1]), ret(vec![])], vec![])],
    );
    with_ptr_types(vec![f, g, caller, straight("t.Untouched", vec![])])
}

fn dumps(p: &Program, a: &Analysis) -> String {
    let mut out = dump_prepass(p, a, None);
    out.push_str(&dump_summaries(p, a, None));
    out.push_str(&dump_findings(a, None));
    out
}

#[test]
fn the_engine_finds_what_the_checkers_raise() {
    let p = nil_program();
    let a = run(&p, &EngineConfig::default(), &default_checkers(), &cold(&p), &solve_text);
    assert_eq!(summary_of(&a, "t.F").requires_.len(), 1);
    assert_eq!(summary_of(&a, "t.G").requires_.len(), 1, "a wrapper requires what it calls");
    assert_eq!(a.findings.len(), 1, "{:?}", a.findings);
    assert_eq!(a.findings[0].func, "t.Caller");
    assert_eq!(a.findings[0].checker, "nil");
    assert_eq!(a.findings[0].pos.as_ref().map(|p| p.line), Some(9));
    assert_eq!((a.scc_cache_hits, a.scc_cache_misses), (0, 0));
}

#[test]
fn cold_and_warm_runs_agree() {
    let p = nil_program();
    let c = cache(of_all());
    let mut disk = Disk::new();
    let first = cached_run(&p, &c, &mut disk);
    let n = calls(&p).1.schedule.len() as u64;
    assert_eq!(first.scc_cache_hits, 0);
    assert!(first.scc_cache_misses > 0);
    let second = cached_run(&p, &c, &mut disk);
    assert_eq!(second.scc_cache_misses, 0, "everything replays");
    assert_eq!(second.scc_cache_hits, n);
    assert_eq!(second.scc_cache_hits, first.scc_cache_misses, "as many as were analysed");
    assert!(second.asked_infer.is_empty() && second.asked_findings.is_empty());
    assert_eq!(first.findings, second.findings);
    assert_eq!(dumps(&p, &first), dumps(&p, &second));
    let plain = run(&p, &EngineConfig::default(), &default_checkers(), &cold(&p), &solve_text);
    assert_eq!(dumps(&p, &first), dumps(&p, &plain), "caching changes nothing");
    assert_eq!((plain.scc_cache_hits, plain.scc_cache_misses), (0, 0));
}

#[test]
fn annotation_findings_replay_identically_from_a_warm_scc_cache() {
    let mut f = caller();
    f.aux = vec![int_const(1, 1, 0)];
    let mut ens =
        fun_aux("t.EnsF", vec![int_const(1, 1, 5)], vec![block(vec![ret(vec![1])], vec![])]);
    ens.sig = 2;
    let p = with_signature(vec![f, ens]);
    let cfg = || {
        with_annotations(annotations(vec![
            ("t.Callee", vec![nonzero("p != 0")], vec![]),
            ("t.EnsF", vec![], vec![result_is(6, "r == 6", None)]),
        ]))
    };
    let c = cache(vec![(Probe::Idle.name().to_string(), Probe::Idle.version())]);
    let mut disk = Disk::new();
    let a1 = cached_run_with(&p, cfg(), vec![Probe::Idle], &c, &mut disk);
    assert_eq!(by(&a1, CONTRACT).len(), 1, "{:?}", a1.findings);
    assert_eq!(by(&a1, UNVERIFIED_ANNOTATION).len(), 1, "{:?}", a1.findings);
    let a2 = cached_run_with(&p, cfg(), vec![Probe::Idle], &c, &mut disk);
    assert_eq!(a1.findings, a2.findings, "the same findings from the cache");
    assert!(a2.scc_cache_hits > 0, "{} {}", a2.scc_cache_hits, a2.scc_cache_misses);
}

#[test]
fn an_edit_is_analysed_anew_with_its_callers() {
    let mut p = nil_program();
    let c = cache(of_all());
    let mut disk = Disk::new();
    let first = cached_run(&p, &c, &mut disk);
    let all = first.scc_cache_misses;
    p.funcs[fid("t.F").0 as usize].ir_hash = [99; 32];
    let second = cached_run(&p, &c, &mut disk);
    assert_eq!(second.scc_cache_misses, 3, "t.F, t.G and t.Caller");
    assert_eq!(second.scc_cache_hits, all - 3);
    assert_eq!(dumps(&p, &first), dumps(&p, &second));
}

#[test]
fn another_set_of_checkers_replays_nothing() {
    let p = nil_program();
    let mut disk = Disk::new();
    cached_run(&p, &cache(of_all()), &mut disk);
    let mut other = of_all();
    other.pop();
    let a = cached_run(&p, &cache(other), &mut disk);
    assert_eq!(a.scc_cache_hits, 0);
}

#[test]
fn an_entry_of_other_functions_is_not_replayed() {
    let p = nil_program();
    let c = cache(of_all());
    let mut disk = Disk::new();
    let first = cached_run(&p, &c, &mut disk);
    let mut q = nil_program();
    q.funcs[fid("t.F").0 as usize].name = "t.Renamed".to_string();
    let a = cached_run(&q, &c, &mut disk);
    assert!(a.scc_cache_hits < first.scc_cache_misses, "names are held against the program");
    assert!(a.scc_cache_misses > 0);
}

#[test]
fn writing_the_questions_down_switches_the_cache_off() {
    let mut cfg = EngineConfig::default();
    assert!(!uses_cache(&cfg, 3), "no directory");
    cfg.cache_dir = Some("/cache".to_string());
    assert!(uses_cache(&cfg, 3));
    assert!(!uses_cache(&cfg, 0), "no checkers");
    cfg.emit_smt = Some("/smt".to_string());
    assert!(!uses_cache(&cfg, 3));
}

#[test]
fn a_guarantee_is_asked_about_up_to_the_first_return_that_may_break_it() {
    let mut f = fun_aux(
        "t.F",
        vec![int_const(1, 1, 5), int_const(2, 1, 7)],
        vec![
            block(vec![branch_on(3)], vec![1, 2]),
            joined(vec![ret(vec![1])], vec![0], vec![]),
            joined(vec![ret(vec![2])], vec![0], vec![]),
        ],
    );
    f.sig = 2;
    let p = with_signature(vec![f]);
    let cfg =
        with_annotations(annotations(vec![("t.F", vec![], vec![result_is(6, "r == 6", None)])]));
    let unsat = |_: &str| CachedOutcome::Unsat;
    for (solver, asked, warned) in [
        (&always_sat as &dyn Fn(&str) -> CachedOutcome, 1, 1),
        (&unknown, 1, 1),
        (&unsat, 2, 0),
    ] {
        let a = run(&p, &cfg, &vec![Probe::Idle], &cold(&p), solver);
        assert_eq!(a.asked_findings.len(), asked, "{:?}", a.asked_findings);
        assert_eq!(by(&a, UNVERIFIED_ANNOTATION).len(), warned, "{:?}", a.findings);
    }
}

#[test]
fn components_that_share_a_function_are_rejected() {
    let sccs = |schedule: Vec<Vec<u32>>| Sccs {
        callee_sccs: schedule.iter().map(|_| vec![]).collect(),
        schedule: schedule.into_iter().map(|c| c.into_iter().map(FuncId).collect()).collect(),
    };
    assert!(sccs(vec![vec![0, 1], vec![2]]).check(3));
    assert!(!sccs(vec![vec![0, 1], vec![1]]).check(3));
    assert!(!sccs(vec![vec![2], vec![0], vec![1, 2]]).check(3));
    assert!(!sccs(vec![vec![3]]).check(3));
    let later = Sccs { schedule: vec![vec![FuncId(0)]], callee_sccs: vec![vec![0]] };
    assert!(!later.check(1));
}

#[test]
fn a_wave_holds_components_whose_callees_are_done() {
    let sccs = Sccs {
        schedule: (0..4).map(|i| vec![FuncId(i)]).collect(),
        callee_sccs: vec![vec![], vec![], vec![0, 1], vec![0]],
    };
    assert_eq!(waves(&sccs, 4), vec![vec![0, 1], vec![2, 3]]);
    let chain = Sccs {
        schedule: (0..3).map(|i| vec![FuncId(i)]).collect(),
        callee_sccs: vec![vec![], vec![0], vec![1]],
    };
    assert_eq!(waves(&chain, 3), vec![vec![0], vec![1], vec![2]]);
}

#[test]
fn a_solver_that_never_answers_reports_no_error() {
    let p = nil_program();
    let a = run(&p, &EngineConfig::default(), &default_checkers(), &cold(&p), &unknown);
    assert!(a.findings.is_empty(), "{:?}", a.findings);
    assert!(summary_of(&a, "t.F").requires_.is_empty());
}

// ---- Dumps ----

#[test]
fn dumps_are_filtered_by_name() {
    let p = nil_program();
    let a = run(&p, &EngineConfig::default(), &default_checkers(), &cold(&p), &solve_text);
    let all = dump_findings(&a, None);
    assert!(all.contains("t.Caller"), "{all}");
    assert_eq!(dump_findings(&a, Some("t.Caller")), all);
    assert_eq!(dump_findings(&a, Some("t.Nowhere")), "");
    let s = dump_summaries(&p, &a, Some("t.F"));
    assert!(s.contains("t.F") && !s.contains("t.Caller"), "{s}");
    let pre = dump_prepass(&p, &a, Some("t.Untouched"));
    assert_eq!(pre.lines().count(), 1, "{pre}");
}

// ---- Questions ----

/// Whether every name in a text is declared, once.
fn is_well_formed(text: &str) -> bool {
    match parse_query(text) {
        Some(q) => {
            let names: BTreeSet<&String> = q.consts.iter().map(|c| &c.0).collect();
            names.len() == q.consts.len()
        }
        None => false,
    }
}

#[test]
fn everything_asked_is_well_formed() {
    let p = nil_program();
    let a = run(&p, &EngineConfig::default(), &default_checkers(), &cold(&p), &solve_text);
    assert!(!a.asked_infer.is_empty() && !a.asked_findings.is_empty());
    assert!(a.asked_infer.iter().all(|t| is_well_formed(t)));
    assert!(a.asked_findings.iter().all(|t| is_well_formed(t)));
}

#[test]
fn what_annotations_ask_is_well_formed() {
    let mut f = caller();
    f.aux = vec![int_const(1, 1, 0)];
    let p = with_int_type(vec![f]);
    let cfg = with_annotations(annotations(vec![("t.Callee", vec![nonzero("p != 0")], vec![])]));
    let a = run(&p, &cfg, &vec![Probe::Idle], &cold(&p), &solve_text);
    assert!(!a.asked_findings.is_empty());
    assert!(a.asked_findings.iter().all(|t| is_well_formed(t)));
}

#[test]
fn inferred_requirements_speak_of_parameters() {
    let p = nil_program();
    let a = run(&p, &EngineConfig::default(), &default_checkers(), &cold(&p), &solve_text);
    let f = &summary_of(&a, "t.F").requires_;
    assert_eq!(f.len(), 1, "{f:?}");
    for s in &a.summaries {
        for c in &s.requires_ {
            assert_eq!(c.provenance, Provenance::Inferred);
            assert!(params_only(&c.formula.term), "{c:?}");
        }
    }
}

#[test]
fn effects_of_a_recursion_reach_all_its_members() {
    let lock = || call("(*sync.Mutex).Lock");
    let p = untyped(vec![
        straight("t.Even", vec![call("t.Odd")]),
        straight("t.Odd", vec![call("t.Even"), lock()]),
    ]);
    let a = analyzed(&p, &Options { widen_after: 3 });
    let (even, odd) = (summary_of(&a, "t.Even"), summary_of(&a, "t.Odd"));
    assert_eq!(even.provenance, Provenance::Inferred, "{even:?}");
    let mut both = even.effects.dup();
    both.join(&odd.effects);
    assert_eq!(both, even.effects, "what a member does, those that call it do");
    assert_eq!(both, odd.effects);
    assert!(!both.is_empty());
}

// ---- Programs ----

fn fid(name: &str) -> FuncId {
    FuncId(NAMES.iter().position(|n| *n == name).unwrap() as u32)
}

/// An operation with the id and the type of the value that it defines, if any.
struct Ins {
    op: Op,
    dst: u32,
    ty: u32,
    line: u32,
}

fn ins(op: Op) -> Ins {
    Ins { op, dst: 0, ty: 0, line: 0 }
}

fn def(op: Op, dst: u32, ty: u32) -> Ins {
    Ins { op, dst, ty, line: 0 }
}

/// The operation at this line of "t.go".
fn at(line: u32, i: Ins) -> Ins {
    Ins { line, ..i }
}

struct Blk {
    code: Vec<Ins>,
    preds: Vec<u32>,
    succs: Vec<u32>,
}

fn block(code: Vec<Ins>, succs: Vec<u32>) -> Blk {
    Blk { code, preds: vec![], succs }
}

fn joined(code: Vec<Ins>, preds: Vec<u32>, succs: Vec<u32>) -> Blk {
    Blk { code, preds, succs }
}

/// A function: its parameters with their types, its free variables, its other values that no
/// operation defines, and its blocks.
struct Fun {
    name: &'static str,
    params: Vec<(u32, u32)>,
    free: Vec<u32>,
    aux: Vec<(u32, u32, ValueKind)>,
    blocks: Vec<Blk>,
    sig: u32,
}

fn fun(name: &'static str, params: Vec<(u32, u32)>, blocks: Vec<Blk>) -> Fun {
    Fun { name, params, free: vec![], aux: vec![], blocks, sig: 0 }
}

fn fun_aux(name: &'static str, aux: Vec<(u32, u32, ValueKind)>, blocks: Vec<Blk>) -> Fun {
    Fun { name, params: vec![], free: vec![], aux, blocks, sig: 0 }
}

fn fun_free(name: &'static str, free: Vec<u32>, blocks: Vec<Blk>) -> Fun {
    Fun { name, params: vec![], free, aux: vec![], blocks, sig: 0 }
}

fn body(f: Fun) -> Function {
    let last = f.blocks.iter().flat_map(|b| &b.code).map(|i| i.dst).max().unwrap_or(0);
    let mut values: Vec<ValueInfo> = (0..last.max(15) + 1)
        .map(|_| ValueInfo { ty: TypeId(0), kind: ValueKind::Opaque })
        .collect();
    for (id, ty) in &f.params {
        values[*id as usize] = ValueInfo { ty: TypeId(*ty), kind: ValueKind::Param };
    }
    for id in &f.free {
        values[*id as usize].kind = ValueKind::FreeVar;
    }
    for (id, ty, kind) in f.aux {
        values[id as usize] = ValueInfo { ty: TypeId(ty), kind };
    }
    let mut blocks = Vec::new();
    for b in f.blocks {
        let mut instrs = Vec::new();
        for i in b.code {
            if i.dst != 0 {
                values[i.dst as usize] =
                    ValueInfo { ty: TypeId(i.ty), kind: ValueKind::Register };
            }
            let pos = if i.line == 0 {
                None
            } else {
                Some(Pos { file: "t.go".to_string(), line: i.line, col: 1 })
            };
            instrs.push(Instr { op: i.op, pos });
        }
        blocks.push(Block { instrs, succs: b.succs, preds: b.preds });
    }
    Function {
        params: f.params.iter().map(|(id, _)| ValueId(*id)).collect(),
        free_vars: f.free.iter().map(|id| ValueId(*id)).collect(),
        sig: TypeId(f.sig),
        values,
        blocks,
    }
}

fn entry(repr: &str, kind: TypeKind) -> TypeEntry {
    TypeEntry { repr: repr.to_string(), kind }
}

fn basic(name: &str) -> TypeEntry {
    entry(name, TypeKind::Basic { name: name.to_string() })
}

/// A program with the given types, of which the first has id 1, and functions.
fn program(types: Vec<TypeEntry>, funs: Vec<Fun>) -> Program {
    let mut entries = vec![entry("", TypeKind::Unknown)];
    entries.extend(types);
    let mut funcs: Vec<FuncDecl> = NAMES
        .iter()
        .enumerate()
        .map(|(i, n)| FuncDecl { name: n.to_string(), body: None, ir_hash: [i as u8; 32] })
        .collect();
    for f in funs {
        let i = fid(f.name).0 as usize;
        funcs[i].body = Some(body(f));
    }
    Program { funcs, types: TypeTable { entries } }
}

/// Types: 1 is `T`, 2 is `*T`, 3 is `bool`.
fn with_ptr_types(funs: Vec<Fun>) -> Program {
    program(
        vec![
            entry("T", TypeKind::Struct),
            entry("*T", TypeKind::Pointer { elem: TypeId(1) }),
            basic("bool"),
        ],
        funs,
    )
}

// ---- Operations ----

fn v(i: u32) -> ValueId {
    ValueId(i)
}

fn vs(ids: Vec<u32>) -> Vec<ValueId> {
    ids.into_iter().map(ValueId).collect()
}

fn some(id: u32) -> Option<ValueId> {
    if id == 0 { None } else { Some(ValueId(id)) }
}

fn ret(vals: Vec<u32>) -> Ins {
    ins(Op::Return { vals: vs(vals) })
}

fn jump() -> Ins {
    ins(Op::Jump)
}

fn branch_on(cond: u32) -> Ins {
    ins(Op::Branch { cond: v(cond) })
}

fn field_addr_on(dst: u32, base: u32) -> Ins {
    def(Op::FieldAddr { dst: v(dst), base: v(base), field: 0 }, dst, 0)
}

fn call_static(callee: &str, dst: u32, ty: u32, args: Vec<u32>) -> Ins {
    def(Op::Call { dst: some(dst), callee: Callee::Static(fid(callee)), args: vs(args) }, dst, ty)
}

fn call_builtin(name: &str, dst: u32, ty: u32, args: Vec<u32>) -> Ins {
    let callee = Callee::Builtin(name.to_string());
    def(Op::Call { dst: some(dst), callee, args: vs(args) }, dst, ty)
}

fn binop(dst: u32, ty: u32, kind: BinOpKind, lhs: u32, rhs: u32) -> Ins {
    def(Op::BinOp { dst: v(dst), kind, lhs: v(lhs), rhs: v(rhs) }, dst, ty)
}

fn assign(dst: u32, ty: u32, src: u32) -> Ins {
    def(Op::Assign { dst: v(dst), src: v(src) }, dst, ty)
}

fn nil(id: u32) -> (u32, u32, ValueKind) {
    (id, 2, ValueKind::Const(ConstVal::Nil))
}

fn int_const(id: u32, ty: u32, n: i64) -> (u32, u32, ValueKind) {
    (id, ty, ValueKind::Const(ConstVal::Int(n)))
}

// ---- Checkers ----

/// Summaries that say nothing.
fn no_summaries() -> SummaryTable {
    SummaryTable { entries: NAMES.iter().map(|_| Some(Summary::default())).collect() }
}

fn required(c: &impl Checker, p: &Program, f: FuncId, t: &SummaryTable) -> Vec<Clause> {
    let verdicts = c.requires_queries(p, f, t).iter().map(|q| solve(q).result()).collect();
    c.infer_requires(p, f, t, &verdicts)
}

// ---- Call graphs ----

fn static_calls(b: &Function) -> Vec<FuncId> {
    let mut out: Vec<FuncId> = Vec::new();
    for i in b.blocks.iter().flat_map(|b| &b.instrs) {
        if let Op::Call { callee: Callee::Static(c), .. }
        | Op::Go { callee: Callee::Static(c), .. }
        | Op::Defer { callee: Callee::Static(c), .. } = &i.op
        {
            if !out.contains(c) {
                out.push(*c);
            }
        }
    }
    out
}

/// The static calls of each function and the strongly connected components, callees first.
fn calls(p: &Program) -> (CallGraph, Sccs) {
    let n = p.funcs.len();
    let edges: Vec<Vec<FuncId>> = p
        .funcs
        .iter()
        .map(|d| match &d.body {
            Some(b) => static_calls(b),
            None => vec![],
        })
        .collect();
    let mut reach = vec![vec![false; n]; n];
    for i in 0..n {
        let mut todo: Vec<usize> = vec![i];
        while let Some(x) = todo.pop() {
            for c in &edges[x] {
                let c = c.0 as usize;
                if !reach[i][c] {
                    reach[i][c] = true;
                    todo.push(c);
                }
            }
        }
    }
    let same = |a: usize, b: usize| a == b || (reach[a][b] && reach[b][a]);
    let mut schedule: Vec<Vec<FuncId>> = Vec::new();
    let mut place: Vec<Option<usize>> = vec![None; n];
    while let Some(next) = (0..n).find(|i| {
        place[*i].is_none() && (0..n).all(|c| !reach[*i][c] || same(*i, c) || place[c].is_some())
    }) {
        let members: Vec<usize> = (0..n).filter(|j| same(next, *j)).collect();
        for m in &members {
            place[*m] = Some(schedule.len());
        }
        schedule.push(members.into_iter().map(|m| FuncId(m as u32)).collect());
    }
    let callee_sccs = schedule
        .iter()
        .enumerate()
        .map(|(k, members)| {
            let mut out: Vec<usize> = Vec::new();
            for c in members.iter().flat_map(|m| &edges[m.0 as usize]) {
                let j = place[c.0 as usize].unwrap();
                if j != k && !out.contains(&j) {
                    out.push(j);
                }
            }
            out
        })
        .collect();
    (CallGraph { edges }, Sccs { schedule, callee_sccs })
}

// ---- Queries as text ----

#[derive(Debug)]
enum Node {
    Atom(String),
    List(Vec<Node>),
}

fn nodes(text: &str) -> Vec<Node> {
    let mut stack: Vec<Vec<Node>> = vec![vec![]];
    let spaced = text.replace('(', " ( ").replace(')', " ) ");
    for word in spaced.split_whitespace() {
        match word {
            "(" => stack.push(vec![]),
            ")" => {
                let done = stack.pop().unwrap();
                stack.last_mut().unwrap().push(Node::List(done));
            }
            w => stack.last_mut().unwrap().push(Node::Atom(w.to_string())),
        }
    }
    assert_eq!(stack.len(), 1, "brackets match");
    stack.pop().unwrap()
}

fn list(n: &Node) -> &Vec<Node> {
    match n {
        Node::List(v) => v,
        Node::Atom(a) => panic!("a list, not {a}"),
    }
}

fn atom(n: &Node) -> &str {
    match n {
        Node::Atom(a) => a,
        Node::List(v) => panic!("a word, not {v:?}"),
    }
}

fn parse_sort(n: &Node) -> Sort {
    match n {
        Node::Atom(a) => match a.as_str() {
            "Bool" => Sort::Bool,
            "Ptr" => Sort::Ptr,
            "GoSeq" => Sort::GoSeq,
            a => panic!("sort {a}"),
        },
        Node::List(v) => Sort::BitVec(atom(&v[2]).parse().unwrap()),
    }
}

/// `None` where a name is not declared.
fn parse_term(n: &Node, consts: &[(String, Sort)]) -> Option<Term> {
    let v = match n {
        Node::Atom(a) => {
            return Some(match a.as_str() {
                "true" => Term::BoolLit(true),
                "false" => Term::BoolLit(false),
                "ptr-nil" => Term::PtrNil,
                a => Term::Var(a.to_string(), consts.iter().find(|c| c.0 == a)?.1),
            })
        }
        Node::List(v) => v,
    };
    if let Node::List(_) = &v[0] {
        return Some(Term::PtrIsNil(Box::new(parse_term(&v[1], consts)?)));
    }
    if atom(&v[0]) == "_" {
        let value = atom(&v[1]).strip_prefix("bv").unwrap().parse().unwrap();
        return Some(Term::BvLit(atom(&v[2]).parse().unwrap(), value));
    }
    let mut sub: Vec<Term> = Vec::new();
    for n in &v[1..] {
        sub.push(parse_term(n, consts)?);
    }
    let of = |i: usize| Box::new(sub[i].dup());
    let bin = |o: BvBinOp| Term::BvBin(o, of(0), of(1));
    let compare = |o: BvCmpOp| Term::BvCmp(o, of(0), of(1));
    Some(match atom(&v[0]) {
        "=" => Term::Eq(of(0), of(1)),
        "not" => Term::Not(of(0)),
        "and" => Term::And(sub),
        "or" => Term::Or(sub),
        "ite" => Term::Ite(of(0), of(1), of(2)),
        "seq-val" => Term::SeqVal(of(0), of(1)),
        "seq-len" => Term::SeqLen(of(0)),
        "seq-cap" => Term::SeqCap(of(0)),
        "bvadd" => bin(BvBinOp::Add),
        "bvsub" => bin(BvBinOp::Sub),
        "bvmul" => bin(BvBinOp::Mul),
        "bvand" => bin(BvBinOp::And),
        "bvor" => bin(BvBinOp::Or),
        "bvxor" => bin(BvBinOp::Xor),
        "bvshl" => bin(BvBinOp::Shl),
        "bvashr" => bin(BvBinOp::Ashr),
        "bvlshr" => bin(BvBinOp::Lshr),
        "bvsdiv" => bin(BvBinOp::Sdiv),
        "bvudiv" => bin(BvBinOp::Udiv),
        "bvsrem" => bin(BvBinOp::Srem),
        "bvurem" => bin(BvBinOp::Urem),
        "bvult" => compare(BvCmpOp::Ult),
        "bvule" => compare(BvCmpOp::Ule),
        "bvslt" => compare(BvCmpOp::Slt),
        "bvsle" => compare(BvCmpOp::Sle),
        w => panic!("operator {w}"),
    })
}

fn parse_query(text: &str) -> Option<Query> {
    let mut q = Query { consts: vec![], asserts: vec![] };
    for line in nodes(text) {
        let v = list(&line);
        match atom(&v[0]) {
            "declare-const" => q.consts.push((atom(&v[1]).to_string(), parse_sort(&v[2]))),
            "assert" => {
                let t = parse_term(&v[1], &q.consts)?;
                q.asserts.push(t);
            }
            "set-logic" | "declare-datatypes" | "declare-datatype" | "check-sat" => {}
            w => panic!("command {w}"),
        }
    }
    assert_eq!(q.canonical_text(), text, "the text is canonical");
    Some(q)
}

fn solve_text(text: &str) -> CachedOutcome {
    match parse_query(text) {
        Some(q) => solve(&q),
        None => CachedOutcome::Unknown,
    }
}

// ---- A small model finder ----
//
// It tries a handful of values for each constant that is not defined by an equality. A model
// that it finds is one; that it finds none only means that none is among the values tried,
// which are chosen so that the queries below are decided.

#[derive(Debug, Clone, PartialEq, Eq)]
enum Val {
    Bool(bool),
    Bv(u32, u128),
    Ptr(u64),
    Slice(u128, u128),
}

type Env = BTreeMap<String, Val>;

fn mask(w: u32) -> u128 {
    if w >= 128 { u128::MAX } else { (1u128 << w) - 1 }
}

fn signed(w: u32, x: u128) -> i128 {
    if w < 128 && x >> (w - 1) == 1 { x as i128 - (1i128 << w) } else { x as i128 }
}

fn bin(op: BvBinOp, w: u32, a: u128, b: u128) -> u128 {
    let (sa, sb) = (signed(w, a), signed(w, b));
    let r = match op {
        BvBinOp::Add => a.wrapping_add(b),
        BvBinOp::Sub => a.wrapping_sub(b),
        BvBinOp::Mul => a.wrapping_mul(b),
        BvBinOp::And => a & b,
        BvBinOp::Or => a | b,
        BvBinOp::Xor => a ^ b,
        BvBinOp::Shl => {
            if b >= w as u128 { 0 } else { a << b }
        }
        BvBinOp::Lshr => {
            if b >= w as u128 { 0 } else { a >> b }
        }
        BvBinOp::Ashr => {
            let n = if b >= w as u128 { w - 1 } else { b as u32 };
            (sa >> n) as u128
        }
        BvBinOp::Udiv => {
            if b == 0 { mask(w) } else { a / b }
        }
        BvBinOp::Urem => {
            if b == 0 { a } else { a % b }
        }
        BvBinOp::Sdiv => {
            if b == 0 {
                if sa < 0 { 1 } else { mask(w) }
            } else {
                sa.wrapping_div(sb) as u128
            }
        }
        BvBinOp::Srem => {
            if b == 0 { a } else { sa.wrapping_rem(sb) as u128 }
        }
    };
    r & mask(w)
}

fn eval(t: &Term, env: &Env) -> Option<Val> {
    Some(match t {
        Term::Var(n, _) => env.get(n)?.clone(),
        Term::BoolLit(b) => Val::Bool(*b),
        Term::BvLit(w, v) => Val::Bv(*w, *v & mask(*w)),
        Term::Eq(a, b) => Val::Bool(eval(a, env)? == eval(b, env)?),
        Term::Not(a) => match eval(a, env)? {
            Val::Bool(b) => Val::Bool(!b),
            _ => return None,
        },
        Term::And(v) => {
            let mut open = false;
            for x in v {
                match eval(x, env) {
                    Some(Val::Bool(false)) => return Some(Val::Bool(false)),
                    Some(_) => {}
                    None => open = true,
                }
            }
            if open {
                return None;
            }
            Val::Bool(true)
        }
        Term::Or(v) => {
            let mut open = false;
            for x in v {
                match eval(x, env) {
                    Some(Val::Bool(true)) => return Some(Val::Bool(true)),
                    Some(_) => {}
                    None => open = true,
                }
            }
            if open {
                return None;
            }
            Val::Bool(false)
        }
        Term::Ite(c, a, b) => match eval(c, env)? {
            Val::Bool(true) => eval(a, env)?,
            _ => eval(b, env)?,
        },
        Term::BvBin(op, a, b) => match (eval(a, env)?, eval(b, env)?) {
            (Val::Bv(w, x), Val::Bv(_, y)) => Val::Bv(w, bin(*op, w, x, y)),
            _ => return None,
        },
        Term::BvCmp(op, a, b) => match (eval(a, env)?, eval(b, env)?) {
            (Val::Bv(w, x), Val::Bv(_, y)) => Val::Bool(match op {
                BvCmpOp::Ult => x < y,
                BvCmpOp::Ule => x <= y,
                BvCmpOp::Slt => signed(w, x) < signed(w, y),
                BvCmpOp::Sle => signed(w, x) <= signed(w, y),
            }),
            _ => return None,
        },
        Term::PtrNil => Val::Ptr(0),
        Term::PtrIsNil(a) => match eval(a, env)? {
            Val::Ptr(x) => Val::Bool(x == 0),
            _ => return None,
        },
        Term::SeqVal(a, b) => match (eval(a, env)?, eval(b, env)?) {
            (Val::Bv(_, x), Val::Bv(_, y)) => Val::Slice(x, y),
            _ => return None,
        },
        Term::SeqLen(a) => match eval(a, env)? {
            Val::Slice(x, _) => Val::Bv(64, x),
            _ => return None,
        },
        Term::SeqCap(a) => match eval(a, env)? {
            Val::Slice(_, y) => Val::Bv(64, y),
            _ => return None,
        },
    })
}

fn literals(t: &Term, out: &mut BTreeSet<u128>) {
    match t {
        Term::BvLit(_, v) => {
            out.insert(*v);
        }
        Term::Var(_, _) | Term::BoolLit(_) | Term::PtrNil => {}
        Term::Not(a) | Term::PtrIsNil(a) | Term::SeqLen(a) | Term::SeqCap(a) => literals(a, out),
        Term::Eq(a, b) | Term::BvBin(_, a, b) | Term::BvCmp(_, a, b) | Term::SeqVal(a, b) => {
            literals(a, out);
            literals(b, out);
        }
        Term::Ite(c, a, b) => {
            literals(c, out);
            literals(a, out);
            literals(b, out);
        }
        Term::And(v) | Term::Or(v) => {
            for x in v {
                literals(x, out);
            }
        }
    }
}

fn flatten<'a>(t: &'a Term, out: &mut Vec<&'a Term>) {
    match t {
        Term::And(v) => {
            for x in v {
                flatten(x, out);
            }
        }
        _ => out.push(t),
    }
}

/// Assigns what the assertions define. `None` where one of them fails.
fn propagate(asserts: &[&Term], env: &mut Env) -> Option<()> {
    loop {
        let mut progress = false;
        for t in asserts {
            match eval(t, env) {
                Some(Val::Bool(true)) => continue,
                Some(_) => return None,
                None => {}
            }
            match t {
                Term::Eq(a, b) => {
                    for (x, y) in [(a, b), (b, a)] {
                        if let Term::Var(n, _) = &**x {
                            if !env.contains_key(n) {
                                if let Some(v) = eval(y, env) {
                                    env.insert(n.clone(), v);
                                    progress = true;
                                    break;
                                }
                            }
                        }
                    }
                }
                Term::Var(n, _) => {
                    env.insert(n.clone(), Val::Bool(true));
                    progress = true;
                }
                Term::Not(a) => {
                    if let Term::Var(n, _) = &**a {
                        env.insert(n.clone(), Val::Bool(false));
                        progress = true;
                    }
                }
                _ => {}
            }
        }
        if !progress {
            return Some(());
        }
    }
}

fn choices(sort: Sort, lits: &BTreeSet<u128>) -> Vec<Val> {
    match sort {
        Sort::Bool => vec![Val::Bool(true), Val::Bool(false)],
        Sort::Ptr => vec![Val::Ptr(0), Val::Ptr(1), Val::Ptr(2)],
        Sort::BitVec(w) => {
            let mut s: Vec<u128> = vec![0, 1, 2, 5];
            s.push(mask(w));
            s.push(mask(w) >> 1);
            s.push((mask(w) >> 1) + 1);
            for l in lits {
                s.push(l.wrapping_sub(1) & mask(w));
                s.push(*l & mask(w));
                s.push(l.wrapping_add(1) & mask(w));
            }
            let mut seen = BTreeSet::new();
            s.into_iter().filter(|x| seen.insert(*x)).map(|x| Val::Bv(w, x)).collect()
        }
        Sort::GoSeq => {
            let mut s: Vec<u128> = vec![0, 1, 2, 3, 5];
            for l in lits {
                if *l < 1000 {
                    s.push(*l);
                    s.push(*l + 1);
                }
            }
            let mut out = Vec::new();
            for a in &s {
                out.push(Val::Slice(*a, *a));
                out.push(Val::Slice(*a, *a + 2));
            }
            out
        }
    }
}

fn search(asserts: &[&Term], consts: &[(String, Sort)], lits: &BTreeSet<u128>, env: Env) -> Option<Env> {
    let mut env = env;
    propagate(asserts, &mut env)?;
    let used: BTreeSet<String> = asserts
        .iter()
        .filter(|t| eval(t, &env).is_none())
        .flat_map(|t| {
            let m = t.free_vars();
            (0..m.len()).map(|i| m.key_at(i).clone()).collect::<Vec<_>>()
        })
        .collect();
    let next = consts.iter().find(|(n, _)| used.contains(n) && !env.contains_key(n));
    let (name, sort) = match next {
        Some(c) => c,
        None => return Some(env),
    };
    for v in choices(*sort, lits) {
        let mut e = env.clone();
        e.insert(name.clone(), v);
        if let Some(found) = search(asserts, consts, lits, e) {
            return Some(found);
        }
    }
    None
}

fn model_text(env: &Env) -> String {
    let mut out = String::new();
    for (n, v) in env {
        let text = match v {
            Val::Bool(b) => format!("{b}"),
            Val::Bv(w, x) => format!("(_ bv{x} {w})"),
            Val::Ptr(0) => "ptr-nil".to_string(),
            Val::Ptr(x) => format!("(ptr-addr #x{x:016x})"),
            Val::Slice(a, b) => format!("(seq-val {a} {b})"),
        };
        out.push_str(&format!("{n} -> {text}\n"));
    }
    out
}

fn solve(q: &Query) -> CachedOutcome {
    let mut asserts = Vec::new();
    let mut lits = BTreeSet::new();
    for t in &q.asserts {
        assert_eq!(t.sort(), Sort::Bool, "assertions are boolean");
        let vars = t.free_vars();
        for i in 0..vars.len() {
            let c = (vars.key_at(i).clone(), *vars.value_at(i));
            assert!(q.consts.contains(&c), "{c:?} is declared");
        }
        flatten(t, &mut asserts);
        literals(t, &mut lits);
    }
    match search(&asserts, &q.consts, &lits, Env::new()) {
        Some(env) => CachedOutcome::Sat { model: Some(model_text(&env)) },
        None => CachedOutcome::Unsat,
    }
}
