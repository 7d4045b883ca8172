#![allow(dead_code)]

use std::collections::{BTreeMap, BTreeSet};

use goverify::bounds::{convert_violation, slice_violation, BoundsChecker};
use goverify::checker::{Checker, Obligation};
use goverify::ir::{
    BinOpKind, Block, Callee, ConstVal, FuncDecl, FuncId, Function, Instr, MakeKind, Op, Pos,
    Program, TypeEntry, TypeId, TypeKind, TypeTable, ValueId, ValueInfo, ValueKind,
};
use goverify::query::{term_string, Query, SatResult};
use goverify::query_cache::CachedOutcome;
use goverify::summary::{Clause, Summary, SummaryTable};
use goverify::term::{BvBinOp, BvCmpOp, Sort, Term};

/// The functions that a program may hold, in the order of their ids.
const NAMES: [&str; 16] = [
    "ext.NoBody", "t.A", "t.Caller", "t.F", "t.F$1", "t.G", "t.H", "t.HV", "t.K", "t.LocalNil",
    "t.M", "t.P", "t.W", "t.X", "t.Y", "t.Z",
];

/// Types: 1 is `int`, 2 is `bool`, 3 is `[]int`, 4 is `[3]int`.
fn with_seq_types(funs: Vec<Fun>) -> Program {
    program(
        vec![
            basic("int"),
            basic("bool"),
            entry("[]int", TypeKind::Slice { elem: TypeId(1) }),
            entry("[3]int", TypeKind::Array { elem: TypeId(1), len: 3 }),
        ],
        funs,
    )
}

/// Types: 1 is `int`, 2 is `int8`, 3 is `int32`, 4 is `uint16`, 5 is `uint32`, 6 is `uint64`,
/// 7 is `bool`, 8 is `uint8`.
fn with_int_types(funs: Vec<Fun>) -> Program {
    program(
        vec![
            basic("int"),
            basic("int8"),
            basic("int32"),
            basic("uint16"),
            basic("uint32"),
            basic("uint64"),
            basic("bool"),
            basic("uint8"),
        ],
        funs,
    )
}

fn index_addr(dst: u32, ty: u32, base: u32, index: u32) -> Ins {
    def(Op::IndexAddr { dst: v(dst), base: v(base), index: v(index) }, dst, ty)
}

fn slice(dst: u32, ty: u32, base: u32, low: u32, high: u32, max: u32) -> Ins {
    let op = Op::Slice {
        dst: v(dst),
        base: v(base),
        low: some(low),
        high: some(high),
        max: some(max),
    };
    def(op, dst, ty)
}

fn make_slice(dst: u32, ty: u32, len: u32, cap: u32) -> Ins {
    def(Op::Make { dst: v(dst), kind: MakeKind::Slice, args: vs(vec![len, cap]) }, dst, ty)
}

fn convert(dst: u32, ty: u32, src: u32) -> Ins {
    def(Op::Convert { dst: v(dst), src: v(src) }, dst, ty)
}

fn free_names(t: &Term) -> Vec<String> {
    let m = t.free_vars();
    let mut names: Vec<String> = (0..m.len()).map(|i| m.key_at(i).clone()).collect();
    names.sort();
    names
}

fn result(o: &Obligation) -> SatResult {
    solve(&o.query).result()
}

#[test]
fn index_on_slice_param_infers_bounds_requires() {
    let f = fun(
        "t.F",
        vec![(1, 3), (2, 1)],
        vec![block(vec![index_addr(3, 1, 1, 2), ret(vec![])], vec![])],
    );
    let p = with_seq_types(vec![f]);
    let reqs = required(&BoundsChecker, &p, fid("t.F"), &no_summaries());
    assert_eq!(reqs.len(), 1, "one index site: {reqs:?}");
    assert_eq!(reqs[0].tag, "bounds");
    assert_eq!(free_names(&reqs[0].formula.term), vec!["p0", "p1"], "over both s and i");
}

#[test]
fn constant_index_under_len_guard_infers_nothing() {
    let mut f = fun(
        "t.F",
        vec![(1, 3)],
        vec![
            block(
                vec![call_builtin("len", 2, 1, vec![1]), binop(4, 2, BinOpKind::Gt, 2, 3), branch_on(4)],
                vec![1, 2],
            ),
            block(vec![index_addr(5, 1, 1, 3), ret(vec![])], vec![]),
            block(vec![ret(vec![])], vec![]),
        ],
    );
    f.aux = vec![int_const(3, 1, 2)];
    let p = with_seq_types(vec![f]);
    let obs = BoundsChecker.obligations(&p, fid("t.F"), &no_summaries());
    assert!(!obs.is_empty(), "the const index site is expressible: {obs:?}");
    for ob in &obs {
        assert_ne!(result(ob), SatResult::Sat, "the len(s) guard rules the violation out: {ob:?}");
    }
}

#[test]
fn array_index_uses_static_len() {
    let f = fun(
        "t.F",
        vec![(1, 4), (2, 1)],
        vec![block(vec![index_addr(3, 1, 1, 2), ret(vec![])], vec![])],
    );
    let p = with_seq_types(vec![f]);
    let reqs = required(&BoundsChecker, &p, fid("t.F"), &no_summaries());
    assert_eq!(reqs.len(), 1, "one index site: {reqs:?}");
    assert_eq!(free_names(&reqs[0].formula.term), vec!["p1"], "only i, never a's own term");
}

#[test]
fn slice_expr_checks_low_le_high_le_cap() {
    let l = Term::var("l", Sort::BitVec(64));
    let h = Term::var("h", Sort::BitVec(64));
    let cap = Term::var("cap", Sort::BitVec(64));
    let violation = slice_violation(l, h, cap, None).expect("slice_violation builds");
    let text = term_string(&violation);
    assert!(text.contains("(bvslt l (_ bv0 64))"), "low < 0:\n{text}");
    assert!(text.contains("(bvslt h l)"), "high < low:\n{text}");
    assert!(text.contains("(bvslt cap h)"), "high > cap:\n{text}");
}

#[test]
fn manifest_out_of_bounds_obligates() {
    let f = fun_aux(
        "t.F",
        vec![int_const(1, 1, 3), int_const(2, 1, 5)],
        vec![block(
            vec![make_slice(3, 3, 1, 0), index_addr(4, 1, 3, 2), ret(vec![])],
            vec![],
        )],
    );
    let p = with_seq_types(vec![f]);
    let obs = BoundsChecker.obligations(&p, fid("t.F"), &no_summaries());
    assert_eq!(obs.len(), 1, "one manifest bounds violation: {obs:?}");
    assert_eq!(obs[0].tag, "bounds");
    assert_eq!(result(&obs[0]), SatResult::Sat, "s[5] on a 3-element slice is satisfiable");
}

#[test]
fn slice_over_capacity_obligates() {
    let f = fun_aux(
        "t.F",
        vec![int_const(1, 1, 2), int_const(2, 1, 4), int_const(3, 1, 1), int_const(4, 1, 5)],
        vec![block(
            vec![make_slice(5, 3, 1, 2), slice(6, 3, 5, 3, 4, 0), ret(vec![])],
            vec![],
        )],
    );
    let p = with_seq_types(vec![f]);
    let obs = BoundsChecker.obligations(&p, fid("t.F"), &no_summaries());
    assert_eq!(obs.len(), 1, "one manifest slice violation: {obs:?}");
    assert_eq!(obs[0].tag, "bounds");
    assert_eq!(result(&obs[0]), SatResult::Sat, "s[1:5] over a cap-4 slice is satisfiable");
}

#[test]
fn symbolic_make_reslice_stays_silent_locally() {
    let f = fun_aux(
        "t.F",
        vec![int_const(4, 1, 1)],
        vec![block(
            vec![
                call_static("t.K", 1, 1, vec![]),
                make_slice(2, 3, 1, 1),
                slice(3, 3, 2, 4, 0, 0),
                ret(vec![]),
            ],
            vec![],
        )],
    );
    let p = with_seq_types(vec![f]);
    let obs = BoundsChecker.obligations(&p, fid("t.F"), &no_summaries());
    assert!(obs.is_empty(), "unknown make() args must not obligate locally: {obs:?}");
}

/// t.F(a, b) { _ = a op b } on parameters of one type.
fn two_param_binop(ty: u32, kind: BinOpKind) -> Fun {
    fun(
        "t.F",
        vec![(1, ty), (2, ty)],
        vec![block(vec![binop(3, ty, kind, 1, 2), ret(vec![])], vec![])],
    )
}

fn tagged<'a>(reqs: &'a Vec<Clause>, tag: &str) -> Vec<&'a Clause> {
    reqs.iter().filter(|c| c.tag == tag).collect()
}

#[test]
fn div_by_param_infers_nonzero_requires() {
    let p = with_int_types(vec![two_param_binop(1, BinOpKind::Div)]);
    let reqs = required(&BoundsChecker, &p, fid("t.F"), &no_summaries());
    let divzero = tagged(&reqs, "div-zero");
    assert_eq!(divzero.len(), 1, "one div-zero requires: {reqs:?}");
    assert_eq!(free_names(&divzero[0].formula.term), vec!["p1"], "requires is over b only");
    assert_eq!(term_string(&divzero[0].formula.term), "(not (= p1 (_ bv0 64)))");
}

#[test]
fn guarded_div_infers_nothing() {
    let mut f = fun(
        "t.F",
        vec![(1, 1), (2, 1)],
        vec![
            block(vec![binop(4, 7, BinOpKind::Neq, 2, 3), branch_on(4)], vec![1, 2]),
            block(vec![binop(5, 1, BinOpKind::Div, 1, 2), ret(vec![])], vec![]),
            block(vec![ret(vec![])], vec![]),
        ],
    );
    f.aux = vec![int_const(3, 1, 0)];
    let p = with_int_types(vec![f]);
    let reqs = required(&BoundsChecker, &p, fid("t.F"), &no_summaries());
    assert!(tagged(&reqs, "div-zero").is_empty(), "guarded div infers nothing: {reqs:?}");
}

#[test]
fn signed_div_minint_overflow_obligation() {
    let p = with_int_types(vec![two_param_binop(2, BinOpKind::Div)]);
    let obs = BoundsChecker.obligations(&p, fid("t.F"), &no_summaries());
    let overflow: Vec<_> = obs.iter().filter(|o| o.tag == "overflow").collect();
    assert_eq!(overflow.len(), 1, "one overflow obligation: {obs:?}");
    assert_eq!(result(overflow[0]), SatResult::Sat, "MinInt8 / -1 is satisfiable: {overflow:?}");
}

#[test]
fn unsigned_div_has_no_minint_case() {
    let p = with_int_types(vec![two_param_binop(6, BinOpKind::Div)]);
    let obs = BoundsChecker.obligations(&p, fid("t.F"), &no_summaries());
    let tags: BTreeSet<&str> = obs.iter().map(|o| o.tag.as_str()).collect();
    assert_eq!(tags, BTreeSet::from(["div-zero"]), "no overflow: {obs:?}");
}

/// t.F(x from) { return to(x) }
fn conversion(from: u32, to: u32) -> Program {
    with_int_types(vec![fun(
        "t.F",
        vec![(1, from)],
        vec![block(vec![convert(2, to, 1), ret(vec![])], vec![])],
    )])
}

#[test]
fn narrowing_convert_infers_range_requires() {
    let p = conversion(1, 2);
    let reqs = required(&BoundsChecker, &p, fid("t.F"), &no_summaries());
    let overflow = tagged(&reqs, "overflow");
    assert_eq!(overflow.len(), 1, "one overflow requires: {reqs:?}");
    assert_eq!(free_names(&overflow[0].formula.term), vec!["p0"], "requires is over x only");
    let text = term_string(&overflow[0].formula.term);
    assert!(text.contains("18446744073709551488"), "int8 MIN sign-extended to 64 bits: {text}");
    assert!(text.contains("(_ bv127 64)"), "int8 MAX at 64 bits: {text}");
}

#[test]
fn unsigned_narrowing_uses_unsigned_bound() {
    let p = conversion(5, 4);
    let reqs = required(&BoundsChecker, &p, fid("t.F"), &no_summaries());
    let overflow = tagged(&reqs, "overflow");
    assert_eq!(overflow.len(), 1, "one overflow requires: {reqs:?}");
    let text = term_string(&overflow[0].formula.term);
    assert!(text.contains("(bvult (_ bv65535 32) p0)"), "unsigned bound: {text}");
}

#[test]
fn widening_and_same_width_convert_infers_nothing() {
    let p = conversion(2, 3);
    let reqs = required(&BoundsChecker, &p, fid("t.F"), &no_summaries());
    assert!(tagged(&reqs, "overflow").is_empty(), "widening infers nothing: {reqs:?}");
    let obs = BoundsChecker.obligations(&p, fid("t.F"), &no_summaries());
    assert!(obs.iter().all(|o| o.tag != "overflow"), "widening obligates nothing: {obs:?}");
}

#[test]
fn sign_change_same_width_is_overflow_site() {
    let p = conversion(1, 6);
    let reqs = required(&BoundsChecker, &p, fid("t.F"), &no_summaries());
    let overflow = tagged(&reqs, "overflow");
    assert_eq!(overflow.len(), 1, "one overflow requires: {reqs:?}");
    let text = term_string(&overflow[0].formula.term);
    assert!(text.contains("(bvslt p0 (_ bv0 64))"), "violation is exactly x < 0: {text}");
    assert!(!text.contains("bvult"), "no second disjunct: {text}");
}

#[test]
fn sign_change_with_narrowing_has_two_bounds() {
    let p = conversion(1, 8);
    let reqs = required(&BoundsChecker, &p, fid("t.F"), &no_summaries());
    let overflow = tagged(&reqs, "overflow");
    assert_eq!(overflow.len(), 1, "one overflow requires: {reqs:?}");
    let text = term_string(&overflow[0].formula.term);
    assert!(text.contains("(bvslt p0 (_ bv0 64))"), "not negative: {text}");
    assert!(text.contains("(bvslt (_ bv255 64) p0)"), "not above uint8 MAX: {text}");
    let x = || Term::var("x", Sort::BitVec(64));
    let zero = Term::bv_lit(64, 0);
    let below = Term::bv_compare(BvCmpOp::Slt, x(), zero).unwrap();
    let above = Term::bv_compare(BvCmpOp::Slt, Term::bv_lit(64, 255), x()).unwrap();
    assert_eq!(convert_violation(64, true, 8, false, x()), Term::or(vec![below, above]));
}

#[test]
fn conversions_are_held_to_the_range_of_the_destination() {
    let x = || Term::var("x", Sort::BitVec(64));
    let text = |ss, wd, sd| term_string(&convert_violation(64, ss, wd, sd, x()).unwrap());
    assert!(text(true, 16, false).contains("(bvslt (_ bv65535 64) x)"));
    assert!(text(true, 16, true).contains("(bvslt (_ bv32767 64) x)"));
    assert!(text(true, 16, true).contains("(bvslt x (_ bv18446744073709518848 64))"));
    assert!(text(false, 16, false).contains("(bvult (_ bv65535 64) x)"));
    assert!(text(false, 16, true).contains("(bvult (_ bv32767 64) x)"));
    assert!(text(false, 64, true).contains("(bvult (_ bv9223372036854775807 64) x)"));
    assert!(!text(true, 64, false).contains("or"));
}

#[test]
fn a_three_index_slice_checks_its_maximum() {
    let l = Term::var("l", Sort::BitVec(64));
    let h = Term::var("h", Sort::BitVec(64));
    let cap = Term::var("cap", Sort::BitVec(64));
    let m = Term::var("m", Sort::BitVec(64));
    let violation = slice_violation(l, h, cap, Some(m)).unwrap();
    let text = term_string(&violation);
    assert!(text.contains("(bvslt cap m)"), "max > cap:\n{text}");
    let narrow = Term::var("n", Sort::BitVec(8));
    let zero = || Term::bv_lit(64, 0);
    assert_eq!(slice_violation(narrow, zero(), zero(), None), None, "not a 64-bit bound");
}

// ---- Programs ----

fn fid(name: &str) -> FuncId {
    FuncId(NAMES.iter().position(|n| *n == name).unwrap() as u32)
}

/// An operation with the id and the type of the value that it defines, if any.
struct Ins {
    op: Op,
    dst: u32,
    ty: u32,
    line: u32,
}

fn ins(op: Op) -> Ins {
    Ins { op, dst: 0, ty: 0, line: 0 }
}

fn def(op: Op, dst: u32, ty: u32) -> Ins {
    Ins { op, dst, ty, line: 0 }
}

/// The operation at this line of "t.go".
fn at(line: u32, i: Ins) -> Ins {
    Ins { line, ..i }
}

struct Blk {
    code: Vec<Ins>,
    preds: Vec<u32>,
    succs: Vec<u32>,
}

fn block(code: Vec<Ins>, succs: Vec<u32>) -> Blk {
    Blk { code, preds: vec![], succs }
}

fn joined(code: Vec<Ins>, preds: Vec<u32>, succs: Vec<u32>) -> Blk {
    Blk { code, preds, succs }
}

/// A function: its parameters with their types, its free variables, its other values that no
/// operation defines, and its blocks.
struct Fun {
    name: &'static str,
    params: Vec<(u32, u32)>,
    free: Vec<u32>,
    aux: Vec<(u32, u32, ValueKind)>,
    blocks: Vec<Blk>,
    sig: u32,
}

fn fun(name: &'static str, params: Vec<(u32, u32)>, blocks: Vec<Blk>) -> Fun {
    Fun { name, params, free: vec![], aux: vec![], blocks, sig: 0 }
}

fn fun_aux(name: &'static str, aux: Vec<(u32, u32, ValueKind)>, blocks: Vec<Blk>) -> Fun {
    Fun { name, params: vec![], free: vec![], aux, blocks, sig: 0 }
}

fn fun_free(name: &'static str, free: Vec<u32>, blocks: Vec<Blk>) -> Fun {
    Fun { name, params: vec![], free, aux: vec![], blocks, sig: 0 }
}

fn body(f: Fun) -> Function {
    let last = f.blocks.iter().flat_map(|b| &b.code).map(|i| i.dst).max().unwrap_or(0);
    let mut values: Vec<ValueInfo> = (0..last.max(15) + 1)
        .map(|_| ValueInfo { ty: TypeId(0), kind: ValueKind::Opaque })
        .collect();
    for (id, ty) in &f.params {
        values[*id as usize] = ValueInfo { ty: TypeId(*ty), kind: ValueKind::Param };
    }
    for id in &f.free {
        values[*id as usize].kind = ValueKind::FreeVar;
    }
    for (id, ty, kind) in f.aux {
        values[id as usize] = ValueInfo { ty: TypeId(ty), kind };
    }
    let mut blocks = Vec::new();
    for b in f.blocks {
        let mut instrs = Vec::new();
        for i in b.code {
            if i.dst != 0 {
                values[i.dst as usize] =
                    ValueInfo { ty: TypeId(i.ty), kind: ValueKind::Register };
            }
            let pos = if i.line == 0 {
                None
            } else {
                Some(Pos { file: "t.go".to_string(), line: i.line, col: 1 })
            };
            instrs.push(Instr { op: i.op, pos });
        }
        blocks.push(Block { instrs, succs: b.succs, preds: b.preds });
    }
    Function {
        params: f.params.iter().map(|(id, _)| ValueId(*id)).collect(),
        free_vars: f.free.iter().map(|id| ValueId(*id)).collect(),
        sig: TypeId(f.sig),
        values,
        blocks,
    }
}

fn entry(repr: &str, kind: TypeKind) -> TypeEntry {
    TypeEntry { repr: repr.to_string(), kind }
}

fn basic(name: &str) -> TypeEntry {
    entry(name, TypeKind::Basic { name: name.to_string() })
}

/// A program with the given types, of which the first has id 1, and functions.
fn program(types: Vec<TypeEntry>, funs: Vec<Fun>) -> Program {
    let mut entries = vec![entry("", TypeKind::Unknown)];
    entries.extend(types);
    let mut funcs: Vec<FuncDecl> = NAMES
        .iter()
        .enumerate()
        .map(|(i, n)| FuncDecl { name: n.to_string(), body: None, ir_hash: [i as u8; 32] })
        .collect();
    for f in funs {
        let i = fid(f.name).0 as usize;
        funcs[i].body = Some(body(f));
    }
    Program { funcs, types: TypeTable { entries } }
}

/// Types: 1 is `T`, 2 is `*T`, 3 is `bool`.
fn with_ptr_types(funs: Vec<Fun>) -> Program {
    program(
        vec![
            entry("T", TypeKind::Struct),
            entry("*T", TypeKind::Pointer { elem: TypeId(1) }),
            basic("bool"),
        ],
        funs,
    )
}

// ---- Operations ----

fn v(i: u32) -> ValueId {
    ValueId(i)
}

fn vs(ids: Vec<u32>) -> Vec<ValueId> {
    ids.into_iter().map(ValueId).collect()
}

fn some(id: u32) -> Option<ValueId> {
    if id == 0 { None } else { Some(ValueId(id)) }
}

fn ret(vals: Vec<u32>) -> Ins {
    ins(Op::Return { vals: vs(vals) })
}

fn jump() -> Ins {
    ins(Op::Jump)
}

fn branch_on(cond: u32) -> Ins {
    ins(Op::Branch { cond: v(cond) })
}

fn field_addr_on(dst: u32, base: u32) -> Ins {
    def(Op::FieldAddr { dst: v(dst), base: v(base), field: 0 }, dst, 0)
}

fn call_static(callee: &str, dst: u32, ty: u32, args: Vec<u32>) -> Ins {
    def(Op::Call { dst: some(dst), callee: Callee::Static(fid(callee)), args: vs(args) }, dst, ty)
}

fn call_builtin(name: &str, dst: u32, ty: u32, args: Vec<u32>) -> Ins {
    let callee = Callee::Builtin(name.to_string());
    def(Op::Call { dst: some(dst), callee, args: vs(args) }, dst, ty)
}

fn binop(dst: u32, ty: u32, kind: BinOpKind, lhs: u32, rhs: u32) -> Ins {
    def(Op::BinOp { dst: v(dst), kind, lhs: v(lhs), rhs: v(rhs) }, dst, ty)
}

fn assign(dst: u32, ty: u32, src: u32) -> Ins {
    def(Op::Assign { dst: v(dst), src: v(src) }, dst, ty)
}

fn nil(id: u32) -> (u32, u32, ValueKind) {
    (id, 2, ValueKind::Const(ConstVal::Nil))
}

fn int_const(id: u32, ty: u32, n: i64) -> (u32, u32, ValueKind) {
    (id, ty, ValueKind::Const(ConstVal::Int(n)))
}

// ---- Checkers ----

/// Summaries that say nothing.
fn no_summaries() -> SummaryTable {
    SummaryTable { entries: NAMES.iter().map(|_| Some(Summary::default())).collect() }
}

fn required(c: &impl Checker, p: &Program, f: FuncId, t: &SummaryTable) -> Vec<Clause> {
    let verdicts = c.requires_queries(p, f, t).iter().map(|q| solve(q).result()).collect();
    c.infer_requires(p, f, t, &verdicts)
}

// ---- A small model finder ----
//
// It tries a handful of values for each constant that is not defined by an equality. A model
// that it finds is one; that it finds none only means that none is among the values tried,
// which are chosen so that the queries below are decided.

#[derive(Debug, Clone, PartialEq, Eq)]
enum Val {
    Bool(bool),
    Bv(u32, u128),
    Ptr(u64),
    Slice(u128, u128),
}

type Env = BTreeMap<String, Val>;

fn mask(w: u32) -> u128 {
    if w >= 128 { u128::MAX } else { (1u128 << w) - 1 }
}

fn signed(w: u32, x: u128) -> i128 {
    if w < 128 && x >> (w - 1) == 1 { x as i128 - (1i128 << w) } else { x as i128 }
}

fn bin(op: BvBinOp, w: u32, a: u128, b: u128) -> u128 {
    let (sa, sb) = (signed(w, a), signed(w, b));
    let r = match op {
        BvBinOp::Add => a.wrapping_add(b),
        BvBinOp::Sub => a.wrapping_sub(b),
        BvBinOp::Mul => a.wrapping_mul(b),
        BvBinOp::And => a & b,
        BvBinOp::Or => a | b,
        BvBinOp::Xor => a ^ b,
        BvBinOp::Shl => {
            if b >= w as u128 { 0 } else { a << b }
        }
        BvBinOp::Lshr => {
            if b >= w as u128 { 0 } else { a >> b }
        }
        BvBinOp::Ashr => {
            let n = if b >= w as u128 { w - 1 } else { b as u32 };
            (sa >> n) as u128
        }
        BvBinOp::Udiv => {
            if b == 0 { mask(w) } else { a / b }
        }
        BvBinOp::Urem => {
            if b == 0 { a } else { a % b }
        }
        BvBinOp::Sdiv => {
            if b == 0 {
                if sa < 0 { 1 } else { mask(w) }
            } else {
                sa.wrapping_div(sb) as u128
            }
        }
        BvBinOp::Srem => {
            if b == 0 { a } else { sa.wrapping_rem(sb) as u128 }
        }
    };
    r & mask(w)
}

fn eval(t: &Term, env: &Env) -> Option<Val> {
    Some(match t {
        Term::Var(n, _) => env.get(n)?.clone(),
        Term::BoolLit(b) => Val::Bool(*b),
        Term::BvLit(w, v) => Val::Bv(*w, *v & mask(*w)),
        Term::Eq(a, b) => Val::Bool(eval(a, env)? == eval(b, env)?),
        Term::Not(a) => match eval(a, env)? {
            Val::Bool(b) => Val::Bool(!b),
            _ => return None,
        },
        Term::And(v) => {
            let mut open = false;
            for x in v {
                match eval(x, env) {
                    Some(Val::Bool(false)) => return Some(Val::Bool(false)),
                    Some(_) => {}
                    None => open = true,
                }
            }
            if open {
                return None;
            }
            Val::Bool(true)
        }
        Term::Or(v) => {
            let mut open = false;
            for x in v {
                match eval(x, env) {
                    Some(Val::Bool(true)) => return Some(Val::Bool(true)),
                    Some(_) => {}
                    None => open = true,
                }
            }
            if open {
                return None;
            }
            Val::Bool(false)
        }
        Term::Ite(c, a, b) => match eval(c, env)? {
            Val::Bool(true) => eval(a, env)?,
            _ => eval(b, env)?,
        },
        Term::BvBin(op, a, b) => match (eval(a, env)?, eval(b, env)?) {
            (Val::Bv(w, x), Val::Bv(_, y)) => Val::Bv(w, bin(*op, w, x, y)),
            _ => return None,
        },
        Term::BvCmp(op, a, b) => match (eval(a, env)?, eval(b, env)?) {
            (Val::Bv(w, x), Val::Bv(_, y)) => Val::Bool(match op {
                BvCmpOp::Ult => x < y,
                BvCmpOp::Ule => x <= y,
                BvCmpOp::Slt => signed(w, x) < signed(w, y),
                BvCmpOp::Sle => signed(w, x) <= signed(w, y),
            }),
            _ => return None,
        },
        Term::PtrNil => Val::Ptr(0),
        Term::PtrIsNil(a) => match eval(a, env)? {
            Val::Ptr(x) => Val::Bool(x == 0),
            _ => return None,
        },
        Term::SeqVal(a, b) => match (eval(a, env)?, eval(b, env)?) {
            (Val::Bv(_, x), Val::Bv(_, y)) => Val::Slice(x, y),
            _ => return None,
        },
        Term::SeqLen(a) => match eval(a, env)? {
            Val::Slice(x, _) => Val::Bv(64, x),
            _ => return None,
        },
        Term::SeqCap(a) => match eval(a, env)? {
            Val::Slice(_, y) => Val::Bv(64, y),
            _ => return None,
        },
    })
}

fn literals(t: &Term, out: &mut BTreeSet<u128>) {
    match t {
        Term::BvLit(_, v) => {
            out.insert(*v);
        }
        Term::Var(_, _) | Term::BoolLit(_) | Term::PtrNil => {}
        Term::Not(a) | Term::PtrIsNil(a) | Term::SeqLen(a) | Term::SeqCap(a) => literals(a, out),
        Term::Eq(a, b) | Term::BvBin(_, a, b) | Term::BvCmp(_, a, b) | Term::SeqVal(a, b) => {
            literals(a, out);
            literals(b, out);
        }
        Term::Ite(c, a, b) => {
            literals(c, out);
            literals(a, out);
            literals(b, out);
        }
        Term::And(v) | Term::Or(v) => {
            for x in v {
                literals(x, out);
            }
        }
    }
}

fn flatten<'a>(t: &'a Term, out: &mut Vec<&'a Term>) {
    match t {
        Term::And(v) => {
            for x in v {
                flatten(x, out);
            }
        }
        _ => out.push(t),
    }
}

/// Assigns what the assertions define. `None` where one of them fails.
fn propagate(asserts: &[&Term], env: &mut Env) -> Option<()> {
    loop {
        let mut progress = false;
        for t in asserts {
            match eval(t, env) {
                Some(Val::Bool(true)) => continue,
                Some(_) => return None,
                None => {}
            }
            match t {
                Term::Eq(a, b) => {
                    for (x, y) in [(a, b), (b, a)] {
                        if let Term::Var(n, _) = &**x {
                            if !env.contains_key(n) {
                                if let Some(v) = eval(y, env) {
                                    env.insert(n.clone(), v);
                                    progress = true;
                                    break;
                                }
                            }
                        }
                    }
                }
                Term::Var(n, _) => {
                    env.insert(n.clone(), Val::Bool(true));
                    progress = true;
                }
                Term::Not(a) => {
                    if let Term::Var(n, _) = &**a {
                        env.insert(n.clone(), Val::Bool(false));
                        progress = true;
                    }
                }
                _ => {}
            }
        }
        if !progress {
            return Some(());
        }
    }
}

fn choices(sort: Sort, lits: &BTreeSet<u128>) -> Vec<Val> {
    match sort {
        Sort::Bool => vec![Val::Bool(true), Val::Bool(false)],
        Sort::Ptr => vec![Val::Ptr(0), Val::Ptr(1), Val::Ptr(2)],
        Sort::BitVec(w) => {
            let mut s: Vec<u128> = vec![0, 1, 2, 5];
            s.push(mask(w));
            s.push(mask(w) >> 1);
            s.push((mask(w) >> 1) + 1);
            for l in lits {
                s.push(l.wrapping_sub(1) & mask(w));
                s.push(*l & mask(w));
                s.push(l.wrapping_add(1) & mask(w));
            }
            let mut seen = BTreeSet::new();
            s.into_iter().filter(|x| seen.insert(*x)).map(|x| Val::Bv(w, x)).collect()
        }
        Sort::GoSeq => {
            let mut s: Vec<u128> = vec![0, 1, 2, 3, 5];
            for l in lits {
                if *l < 1000 {
                    s.push(*l);
                    s.push(*l + 1);
                }
            }
            let mut out = Vec::new();
            for a in &s {
                out.push(Val::Slice(*a, *a));
                out.push(Val::Slice(*a, *a + 2));
            }
            out
        }
    }
}

fn search(asserts: &[&Term], consts: &[(String, Sort)], lits: &BTreeSet<u128>, env: Env) -> Option<Env> {
    let mut env = env;
    propagate(asserts, &mut env)?;
    let used: BTreeSet<String> = asserts
        .iter()
        .filter(|t| eval(t, &env).is_none())
        .flat_map(|t| {
            let m = t.free_vars();
            (0..m.len()).map(|i| m.key_at(i).clone()).collect::<Vec<_>>()
        })
        .collect();
    let next = consts.iter().find(|(n, _)| used.contains(n) && !env.contains_key(n));
    let (name, sort) = match next {
        Some(c) => c,
        None => return Some(env),
    };
    for v in choices(*sort, lits) {
        let mut e = env.clone();
        e.insert(name.clone(), v);
        if let Some(found) = search(asserts, consts, lits, e) {
            return Some(found);
        }
    }
    None
}

fn model_text(env: &Env) -> String {
    let mut out = String::new();
    for (n, v) in env {
        let text = match v {
            Val::Bool(b) => format!("{b}"),
            Val::Bv(w, x) => format!("(_ bv{x} {w})"),
            Val::Ptr(0) => "ptr-nil".to_string(),
            Val::Ptr(x) => format!("(ptr-addr #x{x:016x})"),
            Val::Slice(a, b) => format!("(seq-val {a} {b})"),
        };
        out.push_str(&format!("{n} -> {text}\n"));
    }
    out
}

fn solve(q: &Query) -> CachedOutcome {
    let mut asserts = Vec::new();
    let mut lits = BTreeSet::new();
    for t in &q.asserts {
        assert_eq!(t.sort(), Sort::Bool, "assertions are boolean");
        let vars = t.free_vars();
        for i in 0..vars.len() {
            let c = (vars.key_at(i).clone(), *vars.value_at(i));
            assert!(q.consts.contains(&c), "{c:?} is declared");
        }
        flatten(t, &mut asserts);
        literals(t, &mut lits);
    }
    match search(&asserts, &q.consts, &lits, Env::new()) {
        Some(env) => CachedOutcome::Sat { model: Some(model_text(&env)) },
        None => CachedOutcome::Unsat,
    }
}
