#![allow(dead_code)]

use std::collections::{BTreeMap, BTreeSet};

use goverify::checker::{Checker, Obligation};
use goverify::checkers::default_checkers;
use goverify::ir::{
    BinOpKind, Block, Callee, ConstVal, FuncDecl, FuncId, Function, Instr, Op, Pos, Program,
    TypeEntry, TypeId, TypeKind, TypeTable, ValueId, ValueInfo, ValueKind,
};
use goverify::nil::NilChecker;
use goverify::query::{term_string, Query, SatResult};
use goverify::query_cache::CachedOutcome;
use goverify::shared::{call_result_of, canonical_value};
use goverify::summary::{copy_clauses, Clause, Formula, Provenance, Summary, SummaryTable};
use goverify::term::{ptr_is_nil, BvBinOp, BvCmpOp, Sort, Term};

/// The functions that a program may hold, in the order of their ids.
const NAMES: [&str; 16] = [
    "ext.NoBody", "t.A", "t.Caller", "t.F", "t.F$1", "t.G", "t.H", "t.HV", "t.K", "t.LocalNil",
    "t.M", "t.P", "t.W", "t.X", "t.Y", "t.Z",
];

fn deref_func(blocks: Vec<Blk>) -> Fun {
    fun("t.F", vec![(1, 2)], blocks)
}

fn field_addr_on_param() -> Ins {
    field_addr_on(2, 1)
}

/// t.F(p *T) { deref p }
fn plain_deref() -> Fun {
    deref_func(vec![block(vec![field_addr_on_param(), ret(vec![])], vec![])])
}

fn eq_instr(dst: u32, lhs: u32, rhs: u32) -> Ins {
    binop(dst, 3, BinOpKind::Eq, lhs, rhs)
}

/// Summaries in which each of the given functions requires the given clauses.
fn requiring(of: &[(&str, &Vec<Clause>)]) -> SummaryTable {
    let mut t = no_summaries();
    for (name, cs) in of {
        let mut s = Summary::default();
        s.requires_ = copy_clauses(cs);
        t.entries[fid(name).0 as usize] = Some(s);
    }
    t
}

#[test]
fn unguarded_param_deref_infers_nonnil_requires() {
    let p = with_ptr_types(vec![deref_func(vec![
        block(vec![jump()], vec![1]),
        block(vec![field_addr_on_param(), ret(vec![])], vec![]),
    ])]);
    let reqs = required(&NilChecker, &p, fid("t.F"), &no_summaries());
    assert_eq!(reqs.len(), 1, "one dereferenced pointer parameter: {reqs:?}");
    assert_eq!(reqs[0].tag, "nil-deref");
    assert_eq!(reqs[0].provenance, Provenance::Inferred);
    assert_eq!(term_string(&reqs[0].formula.term), "(not ((_ is ptr-nil) p0))");
}

#[test]
fn guarded_deref_infers_nothing() {
    let mut f = deref_func(vec![
        block(vec![eq_instr(3, 1, 4), branch_on(3)], vec![1, 2]),
        block(vec![ret(vec![])], vec![]),
        block(vec![field_addr_on_param(), ret(vec![])], vec![]),
    ]);
    f.aux = vec![nil(4)];
    let p = with_ptr_types(vec![f]);
    let asked = NilChecker.requires_queries(&p, fid("t.F"), &no_summaries());
    assert_eq!(asked.len(), 1, "the dereference is asked about");
    let reqs = required(&NilChecker, &p, fid("t.F"), &no_summaries());
    assert!(reqs.is_empty(), "guarded deref must infer nothing: {reqs:?}");
}

#[test]
fn conditionally_reachable_deref_still_infers() {
    let mut f = deref_func(vec![
        block(vec![branch_on(3)], vec![1, 2]),
        block(vec![field_addr_on_param(), ret(vec![])], vec![]),
        block(vec![ret(vec![])], vec![]),
    ]);
    f.params.push((3, 3));
    let p = with_ptr_types(vec![f]);
    let reqs = required(&NilChecker, &p, fid("t.F"), &no_summaries());
    assert_eq!(reqs.len(), 1, "conditional deref still needs a requires: {reqs:?}");
    assert_eq!(reqs[0].tag, "nil-deref");
}

/// t.G(q *T) { t.F(q) }
fn wrapper() -> Fun {
    fun("t.G", vec![(1, 2)], vec![block(vec![call_static("t.F", 0, 0, vec![1]), ret(vec![])], vec![])])
}

#[test]
fn requires_propagate_through_call_sites() {
    let p = with_ptr_types(vec![plain_deref(), wrapper()]);
    let freqs = required(&NilChecker, &p, fid("t.F"), &no_summaries());
    assert!(!freqs.is_empty(), "precondition of this test");
    let greqs = required(&NilChecker, &p, fid("t.G"), &requiring(&[("t.F", &freqs)]));
    assert_eq!(greqs.len(), 1, "G inherits F's requires: {greqs:?}");
    assert_eq!(greqs[0].tag, "nil-deref");
    let fv = greqs[0].formula.term.free_vars();
    assert_eq!(fv.len(), 1);
    assert_eq!(fv.key_at(0), "p0", "propagated formula is over G's own p0");
}

#[test]
fn propagation_stops_at_unexpressible_args() {
    let h = fun(
        "t.H",
        vec![],
        vec![block(
            vec![
                call_static("t.K", 2, 2, vec![]),
                call_static("t.F", 0, 0, vec![2]),
                ret(vec![]),
            ],
            vec![],
        )],
    );
    let p = with_ptr_types(vec![plain_deref(), h]);
    let freqs = required(&NilChecker, &p, fid("t.F"), &no_summaries());
    assert!(!freqs.is_empty(), "precondition of this test");
    let hreqs = required(&NilChecker, &p, fid("t.H"), &requiring(&[("t.F", &freqs)]));
    assert!(hreqs.is_empty(), "an unknown argument is not expressible over H's params: {hreqs:?}");
}

#[test]
fn unknown_verdict_infers_nothing() {
    let p = with_ptr_types(vec![plain_deref()]);
    let t = no_summaries();
    let n = NilChecker.requires_queries(&p, fid("t.F"), &t).len();
    assert_eq!(n, 1);
    let unknown = vec![SatResult::Unknown; n];
    assert!(NilChecker.infer_requires(&p, fid("t.F"), &t, &unknown).is_empty());
    assert!(NilChecker.infer_requires(&p, fid("t.F"), &t, &vec![]).is_empty());
    assert_eq!(NilChecker.infer_requires(&p, fid("t.F"), &t, &vec![SatResult::Sat]).len(), 1);
}

fn is_sat(o: &Obligation) -> bool {
    solve(&o.query).result() == SatResult::Sat
}

#[test]
fn const_nil_arg_produces_obligation_other_args_dont() {
    let mut caller = fun(
        "t.Caller",
        vec![(1, 2)],
        vec![block(
            vec![
                call_static("t.F", 0, 0, vec![3]),
                call_static("t.F", 0, 0, vec![1]),
                ret(vec![]),
            ],
            vec![],
        )],
    );
    caller.aux = vec![nil(3)];
    let p = with_ptr_types(vec![plain_deref(), caller]);
    let freqs = required(&NilChecker, &p, fid("t.F"), &no_summaries());
    assert!(!freqs.is_empty(), "precondition of this test");
    let creqs = required(&NilChecker, &p, fid("t.Caller"), &requiring(&[("t.F", &freqs)]));
    let t = requiring(&[("t.F", &freqs), ("t.Caller", &creqs)]);
    let obs = NilChecker.obligations(&p, fid("t.Caller"), &t);
    assert_eq!(obs.len(), 2, "both call sites raise a candidate obligation: {obs:?}");
    assert!(obs.iter().all(|o| o.tag == "nil-deref"));
    let sat = obs.iter().filter(|o| is_sat(o)).count();
    assert_eq!(sat, 1, "only the call with nil obligates once discharged: {obs:?}");
    assert!(is_sat(&obs[0]));
}

#[test]
fn wrapper_does_not_self_report() {
    let p = with_ptr_types(vec![plain_deref(), wrapper()]);
    let freqs = required(&NilChecker, &p, fid("t.F"), &no_summaries());
    assert!(!freqs.is_empty(), "precondition of this test");
    let greqs = required(&NilChecker, &p, fid("t.G"), &requiring(&[("t.F", &freqs)]));
    assert!(!greqs.is_empty(), "G must inherit F's requires");
    let t = requiring(&[("t.F", &freqs), ("t.G", &greqs)]);
    let obs = NilChecker.obligations(&p, fid("t.G"), &t);
    assert!(!obs.is_empty());
    for ob in &obs {
        assert!(!is_sat(ob), "wrapper must not self-report under its own precondition: {ob:?}");
    }
}

#[test]
fn local_manifest_nil_deref_obligates() {
    let f = fun_aux(
        "t.LocalNil",
        vec![nil(1)],
        vec![block(vec![field_addr_on(2, 1), ret(vec![])], vec![])],
    );
    let p = with_ptr_types(vec![f]);
    let obs = NilChecker.obligations(&p, fid("t.LocalNil"), &no_summaries());
    assert_eq!(obs.len(), 1, "one manifest nil deref: {obs:?}");
    assert_eq!(obs[0].tag, "nil-deref");
    assert!(is_sat(&obs[0]), "manifest nil deref is satisfiable");
}

#[test]
fn havoc_subject_deref_stays_silent() {
    let f = fun(
        "t.HV",
        vec![],
        vec![block(
            vec![call_static("t.K", 2, 2, vec![]), field_addr_on(3, 2), ret(vec![])],
            vec![],
        )],
    );
    let p = with_ptr_types(vec![f]);
    let obs = NilChecker.obligations(&p, fid("t.HV"), &no_summaries());
    assert!(obs.is_empty(), "an unknown subject must not obligate: {obs:?}");
}

#[test]
fn symbolic_arg_instantiation_binds_caller_terms() {
    let phi = def(Op::Phi { dst: v(4), edges: vs(vec![1, 3]) }, 4, 2);
    let mut h = fun(
        "t.H",
        vec![(1, 2), (2, 3)],
        vec![
            block(vec![branch_on(2)], vec![1, 2]),
            joined(vec![jump()], vec![0], vec![3]),
            joined(vec![jump()], vec![0], vec![3]),
            joined(vec![phi, call_static("t.F", 0, 0, vec![4]), ret(vec![])], vec![1, 2], vec![]),
        ],
    );
    h.aux = vec![nil(3)];
    let p = with_ptr_types(vec![plain_deref(), h]);
    let freqs = required(&NilChecker, &p, fid("t.F"), &no_summaries());
    assert!(!freqs.is_empty(), "precondition of this test");
    let obs = NilChecker.obligations(&p, fid("t.H"), &requiring(&[("t.F", &freqs)]));
    assert_eq!(obs.len(), 1, "the symbolic call site obligates: {obs:?}");
    assert_eq!(obs[0].tag, "nil-deref");
    assert!(is_sat(&obs[0]), "the nil edge of the phi is a reachable violation");
}

/// t.Caller(q *T): v3 = &q.X; v4 = *v3; then a deref of v4 and t.F(v4), in either order.
fn dominating_deref_fixture(deref_before_call: bool) -> Vec<Obligation> {
    let v3 = def(Op::FieldAddr { dst: v(3), base: v(1), field: 0 }, 3, 2);
    let v4 = def(Op::Load { dst: v(4), addr: v(3) }, 4, 2);
    let v5 = field_addr_on(5, 4);
    let call = call_static("t.F", 0, 0, vec![4]);
    let code = if deref_before_call {
        vec![v3, v4, v5, call, ret(vec![])]
    } else {
        vec![v3, v4, call, v5, ret(vec![])]
    };
    let caller = fun("t.Caller", vec![(1, 2)], vec![block(code, vec![])]);
    let p = with_ptr_types(vec![plain_deref(), caller]);
    let freqs = required(&NilChecker, &p, fid("t.F"), &no_summaries());
    assert!(!freqs.is_empty(), "precondition of this test");
    let creqs = required(&NilChecker, &p, fid("t.Caller"), &requiring(&[("t.F", &freqs)]));
    NilChecker.obligations(
        &p,
        fid("t.Caller"),
        &requiring(&[("t.F", &freqs), ("t.Caller", &creqs)]),
    )
}

#[test]
fn dominating_deref_discharges_call_obligation() {
    let obs = dominating_deref_fixture(true);
    assert!(
        obs.iter().all(|o| !is_sat(o)),
        "a prior deref of the same value rules the violation out: {obs:?}"
    );
}

#[test]
fn later_deref_grants_no_assumption() {
    let obs = dominating_deref_fixture(false);
    assert!(
        obs.iter().any(is_sat),
        "an obligation with no dominating deref must survive: {obs:?}"
    );
}

// ---- Values ----

#[test]
fn canonical_value_follows_assign_chains() {
    let p = with_ptr_types(vec![fun(
        "t.F",
        vec![(1, 2)],
        vec![block(vec![assign(3, 2, 1), assign(4, 2, 3), ret(vec![])], vec![])],
    )]);
    let f = p.func(fid("t.F")).unwrap();
    assert_eq!(canonical_value(f, v(4)), v(1), "v4 chain resolves to param");
    assert_eq!(canonical_value(f, v(3)), v(1), "v3 resolves to param");
    assert_eq!(canonical_value(f, v(1)), v(1), "param is its own root");
}

#[test]
fn canonical_value_survives_crafted_cycles() {
    let p = with_ptr_types(vec![fun(
        "t.F",
        vec![],
        vec![block(vec![assign(3, 2, 3), ret(vec![])], vec![])],
    )]);
    let f = p.func(fid("t.F")).unwrap();
    assert_eq!(canonical_value(f, v(3)), v(3));
}

#[test]
fn call_result_of_single_value_call() {
    let p = with_ptr_types(vec![fun(
        "t.F",
        vec![],
        vec![block(vec![call_static("t.K", 2, 2, vec![]), ret(vec![])], vec![])],
    )]);
    let f = p.func(fid("t.F")).unwrap();
    assert_eq!(call_result_of(f, v(2)), Some((fid("t.K"), 0)), "call dst resolves to (t.K, 0)");
    assert_eq!(call_result_of(f, v(1)), None, "non-call value has no call result");
}

#[test]
fn a_tuple_component_is_a_call_result() {
    let p = with_ptr_types(vec![fun(
        "t.F",
        vec![],
        vec![block(
            vec![
                call_static("t.K", 2, 0, vec![]),
                def(Op::Extract { dst: v(3), tuple: v(2), index: 1 }, 3, 2),
                ret(vec![]),
            ],
            vec![],
        )],
    )]);
    let f = p.func(fid("t.F")).unwrap();
    assert_eq!(call_result_of(f, v(3)), Some((fid("t.K"), 1)));
    assert_eq!(p.lookup_func("t.K"), Some(fid("t.K")));
    assert_eq!(p.lookup_func("t.Nowhere"), None);
}

#[test]
fn names_and_versions_of_the_nil_checker() {
    assert_eq!(NilChecker.name(), "nil");
    let mut names: Vec<&str> = default_checkers().iter().map(|c| c.name()).collect();
    names.sort();
    assert_eq!(names, vec!["bounds", "goroutine-leak", "nil"]);
}

// ---- Guarantees ----

/// That result `i` is not nil.
fn nonnil_result(i: u32) -> Clause {
    let r = Term::var(&format!("r{i}"), Sort::Ptr);
    Clause {
        tag: "nil-deref".to_string(),
        formula: Formula { term: Term::not(ptr_is_nil(r).unwrap()).unwrap() },
        provenance: Provenance::Inferred,
    }
}

/// t.F() { _, .., x := t.K(); deref x }, where `x` is result `i`.
fn late_result(i: u32) -> Program {
    with_ptr_types(vec![fun(
        "t.F",
        vec![],
        vec![block(
            vec![
                call_static("t.K", 1, 0, vec![]),
                def(Op::Extract { dst: v(2), tuple: v(1), index: i }, 2, 2),
                field_addr_on(3, 2),
                ret(vec![]),
            ],
            vec![],
        )],
    )])
}

#[test]
fn a_guarantee_about_a_late_result_is_relied_on() {
    for i in [1, 4, 9, 4_000_000_000] {
        let p = late_result(i);
        let mut t = no_summaries();
        let mut k = Summary::default();
        k.ensures_ = vec![nonnil_result(i)];
        t.entries[fid("t.K").0 as usize] = Some(k);
        let obs = NilChecker.obligations(&p, fid("t.F"), &t);
        assert_eq!(obs.len(), 1, "the callee says something of the result: {obs:?}");
        assert_eq!(solve(&obs[0].query).result(), SatResult::Unsat, "result {i}: {obs:?}");
    }
}

/// t.F(c bool, p *T) with two returns of `p`, and an error that is the constant nil at the
/// second.
fn two_returns() -> Program {
    let sig = TypeKind::Signature { params: vec![], results: vec![TypeId(2), TypeId(5)] };
    let error = TypeKind::Named { name: "error".to_string(), underlying: TypeId(4) };
    let mut f = fun(
        "t.F",
        vec![(1, 3), (2, 2)],
        vec![
            block(vec![branch_on(1)], vec![1, 2]),
            joined(vec![ret(vec![2, 6])], vec![0], vec![]),
            joined(vec![ret(vec![2, 7])], vec![0], vec![]),
        ],
    );
    f.aux = vec![(6, 5, ValueKind::Opaque), (7, 5, ValueKind::Const(ConstVal::Nil))];
    f.sig = 6;
    program(
        vec![
            entry("T", TypeKind::Struct),
            entry("*T", TypeKind::Pointer { elem: TypeId(1) }),
            basic("bool"),
            entry("interface{ Error() string }", TypeKind::Interface),
            entry("error", error),
            entry("func(bool, *T) (*T, error)", sig),
        ],
        vec![f],
    )
}

#[test]
fn returns_are_asked_about_up_to_the_first_that_can_be_nil() {
    let p = two_returns();
    let f = fid("t.F");
    let t = no_summaries();
    let (sat, unsat, unknown) = (SatResult::Sat, SatResult::Unsat, SatResult::Unknown);
    let n = NilChecker.ensures_queries(&p, f, &t).len();
    let skipped = |a: SatResult, b: SatResult| {
        let mut vs: Vec<SatResult> = (0..n).map(|_| unknown).collect();
        vs[0] = a;
        vs[1] = b;
        NilChecker.skipped_ensures(&p, f, &t, &vs)[..2].to_vec()
    };
    assert_eq!(skipped(unsat, unknown), vec![false, false], "the first return is settled");
    assert_eq!(
        skipped(sat, unknown),
        vec![false, false],
        "the second still matters together with the error"
    );
    let mut plain = two_returns();
    let b = plain.funcs[f.0 as usize].body.as_mut().unwrap();
    b.values[7].kind = ValueKind::Opaque;
    let vs: Vec<SatResult> = (0..n).map(|_| unknown).collect();
    assert_eq!(NilChecker.skipped_ensures(&plain, f, &t, &vs)[..2], [false, true]);
    let vs: Vec<SatResult> = (0..n).map(|_| unsat).collect();
    assert_eq!(NilChecker.skipped_ensures(&plain, f, &t, &vs)[..2], [false, false]);
}

#[test]
fn answers_to_skipped_questions_change_nothing() {
    let mut p = two_returns();
    let f = fid("t.F");
    p.funcs[f.0 as usize].body.as_mut().unwrap().values[7].kind = ValueKind::Opaque;
    let t = no_summaries();
    let n = NilChecker.ensures_queries(&p, f, &t).len();
    let of = |second: SatResult| {
        let mut vs: Vec<SatResult> = (0..n).map(|_| SatResult::Unsat).collect();
        vs[0] = SatResult::Sat;
        vs[1] = second;
        NilChecker.infer_ensures(&p, f, &t, &vs)
    };
    assert_eq!(of(SatResult::Unsat), of(SatResult::Sat));
    assert_eq!(of(SatResult::Unsat), of(SatResult::Unknown));
}

// ---- Programs ----

fn fid(name: &str) -> FuncId {
    FuncId(NAMES.iter().position(|n| *n == name).unwrap() as u32)
}

/// An operation with the id and the type of the value that it defines, if any.
struct Ins {
    op: Op,
    dst: u32,
    ty: u32,
    line: u32,
}

fn ins(op: Op) -> Ins {
    Ins { op, dst: 0, ty: 0, line: 0 }
}

fn def(op: Op, dst: u32, ty: u32) -> Ins {
    Ins { op, dst, ty, line: 0 }
}

/// The operation at this line of "t.go".
fn at(line: u32, i: Ins) -> Ins {
    Ins { line, ..i }
}

struct Blk {
    code: Vec<Ins>,
    preds: Vec<u32>,
    succs: Vec<u32>,
}

fn block(code: Vec<Ins>, succs: Vec<u32>) -> Blk {
    Blk { code, preds: vec![], succs }
}

fn joined(code: Vec<Ins>, preds: Vec<u32>, succs: Vec<u32>) -> Blk {
    Blk { code, preds, succs }
}

/// A function: its parameters with their types, its free variables, its other values that no
/// operation defines, and its blocks.
struct Fun {
    name: &'static str,
    params: Vec<(u32, u32)>,
    free: Vec<u32>,
    aux: Vec<(u32, u32, ValueKind)>,
    blocks: Vec<Blk>,
    sig: u32,
}

fn fun(name: &'static str, params: Vec<(u32, u32)>, blocks: Vec<Blk>) -> Fun {
    Fun { name, params, free: vec![], aux: vec![], blocks, sig: 0 }
}

fn fun_aux(name: &'static str, aux: Vec<(u32, u32, ValueKind)>, blocks: Vec<Blk>) -> Fun {
    Fun { name, params: vec![], free: vec![], aux, blocks, sig: 0 }
}

fn fun_free(name: &'static str, free: Vec<u32>, blocks: Vec<Blk>) -> Fun {
    Fun { name, params: vec![], free, aux: vec![], blocks, sig: 0 }
}

fn body(f: Fun) -> Function {
    let last = f.blocks.iter().flat_map(|b| &b.code).map(|i| i.dst).max().unwrap_or(0);
    let mut values: Vec<ValueInfo> = (0..last.max(15) + 1)
        .map(|_| ValueInfo { ty: TypeId(0), kind: ValueKind::Opaque })
        .collect();
    for (id, ty) in &f.params {
        values[*id as usize] = ValueInfo { ty: TypeId(*ty), kind: ValueKind::Param };
    }
    for id in &f.free {
        values[*id as usize].kind = ValueKind::FreeVar;
    }
    for (id, ty, kind) in f.aux {
        values[id as usize] = ValueInfo { ty: TypeId(ty), kind };
    }
    let mut blocks = Vec::new();
    for b in f.blocks {
        let mut instrs = Vec::new();
        for i in b.code {
            if i.dst != 0 {
                values[i.dst as usize] =
                    ValueInfo { ty: TypeId(i.ty), kind: ValueKind::Register };
            }
            let pos = if i.line == 0 {
                None
            } else {
                Some(Pos { file: "t.go".to_string(), line: i.line, col: 1 })
            };
            instrs.push(Instr { op: i.op, pos });
        }
        blocks.push(Block { instrs, succs: b.succs, preds: b.preds });
    }
    Function {
        params: f.params.iter().map(|(id, _)| ValueId(*id)).collect(),
        free_vars: f.free.iter().map(|id| ValueId(*id)).collect(),
        sig: TypeId(f.sig),
        values,
        blocks,
    }
}

fn entry(repr: &str, kind: TypeKind) -> TypeEntry {
    TypeEntry { repr: repr.to_string(), kind }
}

fn basic(name: &str) -> TypeEntry {
    entry(name, TypeKind::Basic { name: name.to_string() })
}

/// A program with the given types, of which the first has id 1, and functions.
fn program(types: Vec<TypeEntry>, funs: Vec<Fun>) -> Program {
    let mut entries = vec![entry("", TypeKind::Unknown)];
    entries.extend(types);
    let mut funcs: Vec<FuncDecl> = NAMES
        .iter()
        .enumerate()
        .map(|(i, n)| FuncDecl { name: n.to_string(), body: None, ir_hash: [i as u8; 32] })
        .collect();
    for f in funs {
        let i = fid(f.name).0 as usize;
        funcs[i].body = Some(body(f));
    }
    Program { funcs, types: TypeTable { entries } }
}

/// Types: 1 is `T`, 2 is `*T`, 3 is `bool`.
fn with_ptr_types(funs: Vec<Fun>) -> Program {
    program(
        vec![
            entry("T", TypeKind::Struct),
            entry("*T", TypeKind::Pointer { elem: TypeId(1) }),
            basic("bool"),
        ],
        funs,
    )
}

// ---- Operations ----

fn v(i: u32) -> ValueId {
    ValueId(i)
}

fn vs(ids: Vec<u32>) -> Vec<ValueId> {
    ids.into_iter().map(ValueId).collect()
}

fn some(id: u32) -> Option<ValueId> {
    if id == 0 { None } else { Some(ValueId(id)) }
}

fn ret(vals: Vec<u32>) -> Ins {
    ins(Op::Return { vals: vs(vals) })
}

fn jump() -> Ins {
    ins(Op::Jump)
}

fn branch_on(cond: u32) -> Ins {
    ins(Op::Branch { cond: v(cond) })
}

fn field_addr_on(dst: u32, base: u32) -> Ins {
    def(Op::FieldAddr { dst: v(dst), base: v(base), field: 0 }, dst, 0)
}

fn call_static(callee: &str, dst: u32, ty: u32, args: Vec<u32>) -> Ins {
    def(Op::Call { dst: some(dst), callee: Callee::Static(fid(callee)), args: vs(args) }, dst, ty)
}

fn call_builtin(name: &str, dst: u32, ty: u32, args: Vec<u32>) -> Ins {
    let callee = Callee::Builtin(name.to_string());
    def(Op::Call { dst: some(dst), callee, args: vs(args) }, dst, ty)
}

fn binop(dst: u32, ty: u32, kind: BinOpKind, lhs: u32, rhs: u32) -> Ins {
    def(Op::BinOp { dst: v(dst), kind, lhs: v(lhs), rhs: v(rhs) }, dst, ty)
}

fn assign(dst: u32, ty: u32, src: u32) -> Ins {
    def(Op::Assign { dst: v(dst), src: v(src) }, dst, ty)
}

fn nil(id: u32) -> (u32, u32, ValueKind) {
    (id, 2, ValueKind::Const(ConstVal::Nil))
}

fn int_const(id: u32, ty: u32, n: i64) -> (u32, u32, ValueKind) {
    (id, ty, ValueKind::Const(ConstVal::Int(n)))
}

// ---- Checkers ----

/// Summaries that say nothing.
fn no_summaries() -> SummaryTable {
    SummaryTable { entries: NAMES.iter().map(|_| Some(Summary::default())).collect() }
}

fn required(c: &impl Checker, p: &Program, f: FuncId, t: &SummaryTable) -> Vec<Clause> {
    let verdicts = c.requires_queries(p, f, t).iter().map(|q| solve(q).result()).collect();
    c.infer_requires(p, f, t, &verdicts)
}

// ---- A small model finder ----
//
// It tries a handful of values for each constant that is not defined by an equality. A model
// that it finds is one; that it finds none only means that none is among the values tried,
// which are chosen so that the queries below are decided.

#[derive(Debug, Clone, PartialEq, Eq)]
enum Val {
    Bool(bool),
    Bv(u32, u128),
    Ptr(u64),
    Slice(u128, u128),
}

type Env = BTreeMap<String, Val>;

fn mask(w: u32) -> u128 {
    if w >= 128 { u128::MAX } else { (1u128 << w) - 1 }
}

fn signed(w: u32, x: u128) -> i128 {
    if w < 128 && x >> (w - 1) == 1 { x as i128 - (1i128 << w) } else { x as i128 }
}

fn bin(op: BvBinOp, w: u32, a: u128, b: u128) -> u128 {
    let (sa, sb) = (signed(w, a), signed(w, b));
    let r = match op {
        BvBinOp::Add => a.wrapping_add(b),
        BvBinOp::Sub => a.wrapping_sub(b),
        BvBinOp::Mul => a.wrapping_mul(b),
        BvBinOp::And => a & b,
        BvBinOp::Or => a | b,
        BvBinOp::Xor => a ^ b,
        BvBinOp::Shl => {
            if b >= w as u128 { 0 } else { a << b }
        }
        BvBinOp::Lshr => {
            if b >= w as u128 { 0 } else { a >> b }
        }
        BvBinOp::Ashr => {
            let n = if b >= w as u128 { w - 1 } else { b as u32 };
            (sa >> n) as u128
        }
        BvBinOp::Udiv => {
            if b == 0 { mask(w) } else { a / b }
        }
        BvBinOp::Urem => {
            if b == 0 { a } else { a % b }
        }
        BvBinOp::Sdiv => {
            if b == 0 {
                if sa < 0 { 1 } else { mask(w) }
            } else {
                sa.wrapping_div(sb) as u128
            }
        }
        BvBinOp::Srem => {
            if b == 0 { a } else { sa.wrapping_rem(sb) as u128 }
        }
    };
    r & mask(w)
}

fn eval(t: &Term, env: &Env) -> Option<Val> {
    Some(match t {
        Term::Var(n, _) => env.get(n)?.clone(),
        Term::BoolLit(b) => Val::Bool(*b),
        Term::BvLit(w, v) => Val::Bv(*w, *v & mask(*w)),
        Term::Eq(a, b) => Val::Bool(eval(a, env)? == eval(b, env)?),
        Term::Not(a) => match eval(a, env)? {
            Val::Bool(b) => Val::Bool(!b),
            _ => return None,
        },
        Term::And(v) => {
            let mut open = false;
            for x in v {
                match eval(x, env) {
                    Some(Val::Bool(false)) => return Some(Val::Bool(false)),
                    Some(_) => {}
                    None => open = true,
                }
            }
            if open {
                return None;
            }
            Val::Bool(true)
        }
        Term::Or(v) => {
            let mut open = false;
            for x in v {
                match eval(x, env) {
                    Some(Val::Bool(true)) => return Some(Val::Bool(true)),
                    Some(_) => {}
                    None => open = true,
                }
            }
            if open {
                return None;
            }
            Val::Bool(false)
        }
        Term::Ite(c, a, b) => match eval(c, env)? {
            Val::Bool(true) => eval(a, env)?,
            _ => eval(b, env)?,
        },
        Term::BvBin(op, a, b) => match (eval(a, env)?, eval(b, env)?) {
            (Val::Bv(w, x), Val::Bv(_, y)) => Val::Bv(w, bin(*op, w, x, y)),
            _ => return None,
        },
        Term::BvCmp(op, a, b) => match (eval(a, env)?, eval(b, env)?) {
            (Val::Bv(w, x), Val::Bv(_, y)) => Val::Bool(match op {
                BvCmpOp::Ult => x < y,
                BvCmpOp::Ule => x <= y,
                BvCmpOp::Slt => signed(w, x) < signed(w, y),
                BvCmpOp::Sle => signed(w, x) <= signed(w, y),
            }),
            _ => return None,
        },
        Term::PtrNil => Val::Ptr(0),
        Term::PtrIsNil(a) => match eval(a, env)? {
            Val::Ptr(x) => Val::Bool(x == 0),
            _ => return None,
        },
        Term::SeqVal(a, b) => match (eval(a, env)?, eval(b, env)?) {
            (Val::Bv(_, x), Val::Bv(_, y)) => Val::Slice(x, y),
            _ => return None,
        },
        Term::SeqLen(a) => match eval(a, env)? {
            Val::Slice(x, _) => Val::Bv(64, x),
            _ => return None,
        },
        Term::SeqCap(a) => match eval(a, env)? {
            Val::Slice(_, y) => Val::Bv(64, y),
            _ => return None,
        },
    })
}

fn literals(t: &Term, out: &mut BTreeSet<u128>) {
    match t {
        Term::BvLit(_, v) => {
            out.insert(*v);
        }
        Term::Var(_, _) | Term::BoolLit(_) | Term::PtrNil => {}
        Term::Not(a) | Term::PtrIsNil(a) | Term::SeqLen(a) | Term::SeqCap(a) => literals(a, out),
        Term::Eq(a, b) | Term::BvBin(_, a, b) | Term::BvCmp(_, a, b) | Term::SeqVal(a, b) => {
            literals(a, out);
            literals(b, out);
        }
        Term::Ite(c, a, b) => {
            literals(c, out);
            literals(a, out);
            literals(b, out);
        }
        Term::And(v) | Term::Or(v) => {
            for x in v {
                literals(x, out);
            }
        }
    }
}

fn flatten<'a>(t: &'a Term, out: &mut Vec<&'a Term>) {
    match t {
        Term::And(v) => {
            for x in v {
                flatten(x, out);
            }
        }
        _ => out.push(t),
    }
}

/// Assigns what the assertions define. `None` where one of them fails.
fn propagate(asserts: &[&Term], env: &mut Env) -> Option<()> {
    loop {
        let mut progress = false;
        for t in asserts {
            match eval(t, env) {
                Some(Val::Bool(true)) => continue,
                Some(_) => return None,
                None => {}
            }
            match t {
                Term::Eq(a, b) => {
                    for (x, y) in [(a, b), (b, a)] {
                        if let Term::Var(n, _) = &**x {
                            if !env.contains_key(n) {
                                if let Some(v) = eval(y, env) {
                                    env.insert(n.clone(), v);
                                    progress = true;
                                    break;
                                }
                            }
                        }
                    }
                }
                Term::Var(n, _) => {
                    env.insert(n.clone(), Val::Bool(true));
                    progress = true;
                }
                Term::Not(a) => {
                    if let Term::Var(n, _) = &**a {
                        env.insert(n.clone(), Val::Bool(false));
                        progress = true;
                    }
                }
                _ => {}
            }
        }
        if !progress {
            return Some(());
        }
    }
}

fn choices(sort: Sort, lits: &BTreeSet<u128>) -> Vec<Val> {
    match sort {
        Sort::Bool => vec![Val::Bool(true), Val::Bool(false)],
        Sort::Ptr => vec![Val::Ptr(0), Val::Ptr(1), Val::Ptr(2)],
        Sort::BitVec(w) => {
            let mut s: Vec<u128> = vec![0, 1, 2, 5];
            s.push(mask(w));
            s.push(mask(w) >> 1);
            s.push((mask(w) >> 1) + 1);
            for l in lits {
                s.push(l.wrapping_sub(1) & mask(w));
                s.push(*l & mask(w));
                s.push(l.wrapping_add(1) & mask(w));
            }
            let mut seen = BTreeSet::new();
            s.into_iter().filter(|x| seen.insert(*x)).map(|x| Val::Bv(w, x)).collect()
        }
        Sort::GoSeq => {
            let mut s: Vec<u128> = vec![0, 1, 2, 3, 5];
            for l in lits {
                if *l < 1000 {
                    s.push(*l);
                    s.push(*l + 1);
                }
            }
            let mut out = Vec::new();
            for a in &s {
                out.push(Val::Slice(*a, *a));
                out.push(Val::Slice(*a, *a + 2));
            }
            out
        }
    }
}

fn search(asserts: &[&Term], consts: &[(String, Sort)], lits: &BTreeSet<u128>, env: Env) -> Option<Env> {
    let mut env = env;
    propagate(asserts, &mut env)?;
    let used: BTreeSet<String> = asserts
        .iter()
        .filter(|t| eval(t, &env).is_none())
        .flat_map(|t| {
            let m = t.free_vars();
            (0..m.len()).map(|i| m.key_at(i).clone()).collect::<Vec<_>>()
        })
        .collect();
    let next = consts.iter().find(|(n, _)| used.contains(n) && !env.contains_key(n));
    let (name, sort) = match next {
        Some(c) => c,
        None => return Some(env),
    };
    for v in choices(*sort, lits) {
        let mut e = env.clone();
        e.insert(name.clone(), v);
        if let Some(found) = search(asserts, consts, lits, e) {
            return Some(found);
        }
    }
    None
}

fn model_text(env: &Env) -> String {
    let mut out = String::new();
    for (n, v) in env {
        let text = match v {
            Val::Bool(b) => format!("{b}"),
            Val::Bv(w, x) => format!("(_ bv{x} {w})"),
            Val::Ptr(0) => "ptr-nil".to_string(),
            Val::Ptr(x) => format!("(ptr-addr #x{x:016x})"),
            Val::Slice(a, b) => format!("(seq-val {a} {b})"),
        };
        out.push_str(&format!("{n} -> {text}\n"));
    }
    out
}

fn solve(q: &Query) -> CachedOutcome {
    let mut asserts = Vec::new();
    let mut lits = BTreeSet::new();
    for t in &q.asserts {
        assert_eq!(t.sort(), Sort::Bool, "assertions are boolean");
        let vars = t.free_vars();
        for i in 0..vars.len() {
            let c = (vars.key_at(i).clone(), *vars.value_at(i));
            assert!(q.consts.contains(&c), "{c:?} is declared");
        }
        flatten(t, &mut asserts);
        literals(t, &mut lits);
    }
    match search(&asserts, &q.consts, &lits, Env::new()) {
        Some(env) => CachedOutcome::Sat { model: Some(model_text(&env)) },
        None => CachedOutcome::Unsat,
    }
}
