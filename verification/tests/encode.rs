use std::collections::{BTreeMap, BTreeSet};

use goverify::dfs::cut_back_edges;
use goverify::encode::{encode_func, encode_func_with, EncodedFunc};
use goverify::ir::{
    BinOpKind, Block, Callee, ConstVal, FuncDecl, FuncId, Function, Instr, MakeKind, Op, Program,
    TypeEntry, TypeId, TypeKind, TypeTable, UnOpKind, ValueId, ValueInfo, ValueKind,
};
use goverify::model::{guard_values, model_bindings, violating_path};
use goverify::order::SortedMap;
use goverify::query::{seq_datatype, Query};
use goverify::query_cache::CachedOutcome;
use goverify::summary::{Clause, Formula, Provenance, Summary, SummaryTable};
use goverify::term::{ptr_is_nil, ptr_sort, BvBinOp, BvCmpOp, Sort, Term};
use goverify::types::{int_repr, sort_of};

// ---- Programs ----

const INT: u32 = 1;
const UINT8: u32 = 2;
const BOOL: u32 = 3;
const PTR: u32 = 5;
const SLICE: u32 = 6;
const UINTPTR: u32 = 7;
const UNSAFE: u32 = 8;

fn basic(name: &str) -> TypeEntry {
    TypeEntry { repr: name.to_string(), kind: TypeKind::Basic { name: name.to_string() } }
}

fn types() -> TypeTable {
    TypeTable {
        entries: vec![
            TypeEntry { repr: String::new(), kind: TypeKind::Unknown },
            basic("int"),
            basic("uint8"),
            basic("bool"),
            TypeEntry { repr: "T".to_string(), kind: TypeKind::Struct },
            TypeEntry { repr: "*T".to_string(), kind: TypeKind::Pointer { elem: TypeId(4) } },
            TypeEntry { repr: "[]int".to_string(), kind: TypeKind::Slice { elem: TypeId(1) } },
            basic("uintptr"),
            TypeEntry {
                repr: "unsafe.Pointer".to_string(),
                kind: TypeKind::Basic { name: "Pointer".to_string() },
            },
            basic("string"),
            basic("float64"),
            TypeEntry {
                repr: "MyInt".to_string(),
                kind: TypeKind::Named { name: "MyInt".to_string(), underlying: TypeId(1) },
            },
        ],
    }
}

fn lookup(repr: &str) -> TypeId {
    TypeId(types().entries.iter().position(|e| e.repr == repr).unwrap() as u32)
}

fn v(i: u32) -> ValueId {
    ValueId(i)
}

fn block(ops: Vec<Op>, preds: Vec<u32>, succs: Vec<u32>) -> Block {
    Block { instrs: ops.into_iter().map(|op| Instr { op, pos: None }).collect(), succs, preds }
}

fn ret(vals: Vec<u32>) -> Op {
    Op::Return { vals: vals.into_iter().map(ValueId).collect() }
}

/// A function: its parameters and the types of other values, by id.
struct Fun {
    params: Vec<(u32, u32)>,
    regs: Vec<(u32, u32)>,
    consts: Vec<(u32, u32, i64)>,
    blocks: Vec<Block>,
}

fn fun(params: Vec<(u32, u32)>, regs: Vec<(u32, u32)>, blocks: Vec<Block>) -> Fun {
    Fun { params, regs, consts: vec![], blocks }
}

fn program(f: Fun) -> (Program, FuncId) {
    let mut values = Vec::new();
    for i in 0..16u32 {
        let mut info = ValueInfo { ty: TypeId(0), kind: ValueKind::Opaque };
        for (id, ty) in &f.regs {
            if *id == i {
                info = ValueInfo { ty: TypeId(*ty), kind: ValueKind::Register };
            }
        }
        for (id, ty) in &f.params {
            if *id == i {
                info = ValueInfo { ty: TypeId(*ty), kind: ValueKind::Param };
            }
        }
        for (id, ty, n) in &f.consts {
            if *id == i {
                info = ValueInfo { ty: TypeId(*ty), kind: ValueKind::Const(ConstVal::Int(*n)) };
            }
        }
        values.push(info);
    }
    let body = Function {
        params: f.params.iter().map(|(id, _)| ValueId(*id)).collect(),
        free_vars: vec![],
        sig: TypeId(0),
        values,
        blocks: f.blocks,
    };
    let p = Program {
        funcs: vec![
            FuncDecl { name: "t.F".to_string(), body: Some(body), ir_hash: [0; 32] },
            FuncDecl { name: "t.G".to_string(), body: None, ir_hash: [0; 32] },
        ],
        types: types(),
    };
    (p, FuncId(0))
}

fn encoded(f: Fun) -> EncodedFunc {
    let (p, id) = program(f);
    encode_func(&p, id).unwrap()
}

fn reach_text(f: Fun, b: usize) -> String {
    encoded(f).reach_query(b, vec![]).canonical_text()
}

fn nonnil(enc: &EncodedFunc, x: u32) -> Term {
    Term::not(ptr_is_nil(enc.value(v(x)).unwrap().dup()).unwrap()).unwrap()
}

fn same(enc: &EncodedFunc, a: u32, b: u32) -> Term {
    Term::eq(enc.value(v(a)).unwrap().dup(), enc.value(v(b)).unwrap().dup()).unwrap()
}

// ---- Types ----

#[test]
fn sort_of_maps_the_v1_theory_surface() {
    let ty = types();
    assert_eq!(sort_of(&ty, lookup("int")), Some(Sort::BitVec(64)));
    assert_eq!(sort_of(&ty, lookup("uint8")), Some(Sort::BitVec(8)));
    assert_eq!(sort_of(&ty, lookup("bool")), Some(Sort::Bool));
    assert_eq!(sort_of(&ty, lookup("*T")), Some(ptr_sort()));
    assert_eq!(sort_of(&ty, lookup("[]int")), Some(seq_datatype().sort()));
    assert_eq!(sort_of(&ty, lookup("string")), Some(seq_datatype().sort()));
    assert_eq!(sort_of(&ty, lookup("float64")), None, "floats havoc in v1");
    assert_eq!(sort_of(&ty, lookup("MyInt")), Some(Sort::BitVec(64)), "named -> underlying");
}

#[test]
fn int_repr_distinguishes_width_and_sign() {
    let ty = types();
    assert_eq!(int_repr(&ty, lookup("int")), Some((64, true)));
    assert_eq!(int_repr(&ty, lookup("uint8")), Some((8, false)));
    assert_eq!(int_repr(&ty, lookup("bool")), None);
    assert_eq!(int_repr(&ty, lookup("float64")), None, "floats are not ints");
}

// ---- Guards ----

#[test]
fn cut_back_edges_yields_a_dag_keeping_forward_edges() {
    // 0 -> 1, 1 -> {2, 1}, 2 -> 0: both cycle edges are cut.
    let (p, id) = program(fun(
        vec![],
        vec![],
        vec![
            block(vec![Op::Jump], vec![], vec![1]),
            block(vec![Op::Branch { cond: v(0) }], vec![], vec![2, 1]),
            block(vec![Op::Jump], vec![], vec![0]),
        ],
    ));
    let dag = cut_back_edges(p.func(id).unwrap());
    assert_eq!(dag[0], vec![1]);
    assert_eq!(dag[1], vec![2], "self-edge 1->1 cut");
    assert!(dag[2].is_empty(), "2->0 back edge cut");
}

#[test]
fn unreachable_cycle_guards_are_forced_false() {
    // 0 returns; 1 -> 2 -> 1 is a cycle that is never entered.
    let enc = encoded(fun(
        vec![],
        vec![],
        vec![
            block(vec![ret(vec![])], vec![], vec![]),
            block(vec![Op::Jump], vec![2], vec![2]),
            block(vec![Op::Jump], vec![1], vec![1]),
        ],
    ));
    let q = enc.reach_query(1, vec![]);
    let text = q.canonical_text();
    assert!(text.contains("(assert (= g1 false))"), "block 1 is pinned false:\n{text}");
    assert!(text.contains("(assert (= g2 false))"), "block 2 is pinned false:\n{text}");
    assert_eq!(solve(&q), CachedOutcome::Unsat, "it can never be reached");
}

#[test]
fn straight_line_guards_entry_true_then_propagate() {
    let enc = encoded(fun(
        vec![],
        vec![],
        vec![
            block(vec![Op::Jump], vec![], vec![1]),
            block(vec![ret(vec![])], vec![0], vec![]),
        ],
    ));
    assert_eq!(enc.guards.len(), 2);
    let text = enc.reach_query(1, vec![]).canonical_text();
    assert!(text.contains("(assert (= g0 true))"), "entry guard:\n{text}");
    assert!(text.contains("(assert (= g1 g0))"), "jump edge:\n{text}");
    assert!(text.contains("(assert g1)"), "reach conjunct:\n{text}");
}

#[test]
fn branch_guards_split_on_condition() {
    let text = reach_text(
        fun(
            vec![(1, BOOL)],
            vec![],
            vec![
                block(vec![Op::Branch { cond: v(1) }], vec![], vec![1, 2]),
                block(vec![ret(vec![])], vec![0], vec![]),
                block(vec![ret(vec![])], vec![0], vec![]),
            ],
        ),
        2,
    );
    assert!(text.contains("(= g1 (and g0 p0))"), "then edge:\n{text}");
    assert!(text.contains("(= g2 (and g0 (not p0)))"), "else edge:\n{text}");
}

fn diamond() -> Vec<Block> {
    vec![
        block(vec![Op::Jump], vec![], vec![1, 2]),
        block(vec![Op::Jump], vec![0], vec![3]),
        block(vec![Op::Jump], vec![0], vec![3]),
        block(vec![ret(vec![])], vec![1, 2], vec![]),
    ]
}

#[test]
fn merge_block_guard_is_or_of_incoming() {
    let text = reach_text(fun(vec![], vec![], diamond()), 3);
    assert!(text.contains("(= g3 (or g1 g2))"), "merge guard:\n{text}");
}

// ---- Operations ----

fn binop(dst: u32, kind: BinOpKind, l: u32, r: u32) -> Op {
    Op::BinOp { dst: v(dst), kind, lhs: v(l), rhs: v(r) }
}

fn one_block(ops: Vec<Op>) -> Vec<Block> {
    vec![block(ops, vec![], vec![])]
}

#[test]
fn binop_add_encodes_bvadd() {
    let mut f = fun(
        vec![(1, INT)],
        vec![(2, INT)],
        one_block(vec![binop(2, BinOpKind::Add, 1, 3), ret(vec![2])]),
    );
    f.consts = vec![(3, INT, 1)];
    let text = reach_text(f, 0);
    assert!(text.contains("(= v2 (bvadd p0 v3))"), "add def:\n{text}");
    assert!(text.contains("(= v3 (_ bv1 64))"), "const 1 literal:\n{text}");
}

#[test]
fn address_of_ops_assert_nonnil_dst() {
    let enc = encoded(fun(
        vec![(1, PTR)],
        vec![(2, PTR)],
        one_block(vec![Op::FieldAddr { dst: v(2), base: v(1), field: 0 }, ret(vec![2])]),
    ));
    assert!(enc.asserts.contains(&nonnil(&enc, 2)), "an address is never nil");
}

fn convert(dst: u32, src: u32) -> Op {
    Op::Convert { dst: v(dst), src: v(src) }
}

#[test]
fn uintptr_convert_chain_asserts_nonnil() {
    let enc = encoded(fun(
        vec![(1, UINTPTR)],
        vec![(2, UNSAFE), (3, PTR)],
        one_block(vec![convert(2, 1), convert(3, 2), ret(vec![3])]),
    ));
    assert!(enc.asserts.contains(&nonnil(&enc, 3)), "a pointer from a uintptr is not nil");
}

#[test]
fn pointer_pun_stays_nilable() {
    let enc = encoded(fun(
        vec![(1, PTR)],
        vec![(2, UNSAFE), (3, PTR)],
        one_block(vec![convert(2, 1), convert(3, 2), ret(vec![3])]),
    ));
    assert!(!enc.asserts.contains(&nonnil(&enc, 3)), "a pointer pun stays nilable");
}

#[test]
fn fanout_convert_cycle_on_crafted_gvir_terminates() {
    let mut ops: Vec<Op> = (0..12).map(|_| convert(5, 5)).collect();
    ops.push(convert(6, 5));
    ops.push(ret(vec![6]));
    let enc = encoded(fun(vec![], vec![(5, UNSAFE), (6, PTR)], one_block(ops)));
    assert!(!enc.asserts.contains(&nonnil(&enc, 6)), "a cycle of conversions proves nothing");
}

fn field_addr(dst: u32, base: u32) -> Op {
    Op::FieldAddr { dst: v(dst), base: v(base), field: 0 }
}

fn load(dst: u32, addr: u32) -> Op {
    Op::Load { dst: v(dst), addr: v(addr) }
}

fn two_loads(between: Vec<Op>) -> EncodedFunc {
    let mut ops = vec![field_addr(2, 1), load(3, 2)];
    ops.extend(between);
    ops.push(field_addr(4, 1));
    ops.push(load(5, 4));
    ops.push(ret(vec![5]));
    encoded(fun(
        vec![(1, PTR)],
        vec![(2, PTR), (3, PTR), (4, PTR), (5, PTR)],
        one_block(ops),
    ))
}

#[test]
fn repeated_field_load_is_forwarded() {
    let enc = two_loads(vec![]);
    assert!(enc.asserts.contains(&same(&enc, 5, 3)), "the second load is the first");
}

#[test]
fn store_between_loads_kills_forwarding() {
    let enc = two_loads(vec![Op::Store { addr: v(2), val: v(1) }]);
    assert!(!enc.asserts.contains(&same(&enc, 5, 3)), "a store invalidates forwarding");
}

#[test]
fn signed_and_unsigned_div_pick_sdiv_udiv() {
    let mk = |ty: u32| {
        fun(
            vec![(1, ty), (2, ty)],
            vec![(3, ty)],
            one_block(vec![binop(3, BinOpKind::Div, 1, 2), ret(vec![3])]),
        )
    };
    let text = reach_text(mk(INT), 0);
    assert!(text.contains("(= v3 (bvsdiv p0 p1))"), "signed div:\n{text}");
    let text = reach_text(mk(UINT8), 0);
    assert!(text.contains("(= v3 (bvudiv p0 p1))"), "unsigned div:\n{text}");
}

#[test]
fn comparison_binops_encode_bool_dsts() {
    let mk = |ty: u32| {
        fun(
            vec![(1, ty), (2, ty)],
            vec![(3, BOOL)],
            one_block(vec![binop(3, BinOpKind::Lt, 1, 2), ret(vec![3])]),
        )
    };
    let text = reach_text(mk(INT), 0);
    assert!(text.contains("(= v3 (bvslt p0 p1))"), "signed lt:\n{text}");
    let text = reach_text(mk(UINT8), 0);
    assert!(text.contains("(= v3 (bvult p0 p1))"), "unsigned lt:\n{text}");
}

fn phi(dst: u32, edges: Vec<u32>) -> Op {
    Op::Phi { dst: v(dst), edges: edges.into_iter().map(ValueId).collect() }
}

#[test]
fn phi_is_ite_over_incoming_edge_guards() {
    let text = reach_text(
        fun(
            vec![(1, INT), (2, INT), (3, BOOL)],
            vec![(4, INT)],
            vec![
                block(vec![Op::Branch { cond: v(3) }], vec![], vec![1, 2]),
                block(vec![Op::Jump], vec![0], vec![3]),
                block(vec![Op::Jump], vec![0], vec![3]),
                block(vec![phi(4, vec![1, 2]), ret(vec![4])], vec![1, 2], vec![]),
            ],
        ),
        3,
    );
    assert!(text.contains("(= v4 (ite g1 p0 p1))"), "phi ite:\n{text}");
}

#[test]
fn phi_with_cut_back_edge_keeps_preheader_value_only() {
    let text = reach_text(
        fun(
            vec![(1, INT), (2, INT), (3, BOOL)],
            vec![(4, INT)],
            vec![
                block(vec![Op::Jump], vec![], vec![1]),
                block(vec![phi(4, vec![1, 2]), Op::Branch { cond: v(3) }], vec![0, 2], vec![2, 3]),
                block(vec![Op::Jump], vec![1], vec![1]),
                block(vec![ret(vec![4])], vec![1], vec![]),
            ],
        ),
        1,
    );
    assert!(text.contains("(= v4 p0)"), "phi keeps preheader:\n{text}");
    assert!(!text.contains("ite"), "no ite for cut back edge:\n{text}");
}

fn make_slice() -> Fun {
    fun(
        vec![(1, INT), (2, INT)],
        vec![(3, SLICE)],
        one_block(vec![
            Op::Make { dst: v(3), kind: MakeKind::Slice, args: vec![v(1), v(2)] },
            ret(vec![3]),
        ]),
    )
}

#[test]
fn makeslice_defines_len_and_cap() {
    let text = reach_text(make_slice(), 0);
    assert!(text.contains("(= v3 (seq-val p0 p1))"), "makeslice len/cap:\n{text}");
}

fn len_of(ty: u32) -> Fun {
    fun(
        vec![(1, ty)],
        vec![(2, INT)],
        one_block(vec![
            Op::Call {
                dst: Some(v(2)),
                callee: Callee::Builtin("len".to_string()),
                args: vec![v(1)],
            },
            ret(vec![2]),
        ]),
    )
}

#[test]
fn len_builtin_defines_seq_len_accessor() {
    let text = reach_text(len_of(SLICE), 0);
    assert!(text.contains("(= v2 (seq-len p0))"), "len is the slice's length:\n{text}");
}

#[test]
fn len_builtin_on_non_seq_arg_havocs() {
    let text = reach_text(len_of(INT), 0);
    assert!(text.contains("(declare-const v2 (_ BitVec 64))"), "still declared:\n{text}");
    assert!(!text.contains("(= v2"), "no defining equality:\n{text}");
}

#[test]
fn make_slice_dst_keeps_seq_invariant_but_slice_dst_does_not() {
    let text = reach_text(make_slice(), 0);
    assert!(
        text.contains("(bvule (seq-len v3) (seq-cap v3))"),
        "a made slice has length at most capacity:\n{text}"
    );
    let sl = Op::Slice { dst: v(3), base: v(1), low: None, high: None, max: None };
    let text = reach_text(fun(vec![(1, SLICE)], vec![(3, SLICE)], one_block(vec![sl, ret(vec![3])])), 0);
    assert!(
        !text.contains("(bvule (seq-len v3) (seq-cap v3))"),
        "a sliced one need not, that is the bug to find:\n{text}"
    );
}

#[test]
fn unmodeled_ops_havoc_but_declare() {
    let call = Op::Call { dst: Some(v(2)), callee: Callee::Static(FuncId(1)), args: vec![] };
    let text = reach_text(fun(vec![], vec![(2, PTR)], one_block(vec![call, ret(vec![2])])), 0);
    assert!(text.contains("(declare-const v2 Ptr)"), "call dst declared:\n{text}");
    assert!(!text.contains("(= v2"), "call dst has no defining equality:\n{text}");
}

#[test]
fn eq_neq_work_across_sorts() {
    let mk = |kind: BinOpKind| {
        fun(
            vec![(1, PTR), (2, PTR)],
            vec![(3, BOOL)],
            one_block(vec![binop(3, kind, 1, 2), ret(vec![3])]),
        )
    };
    let text = reach_text(mk(BinOpKind::Eq), 0);
    assert!(text.contains("(= v3 (= p0 p1))"), "ptr eq:\n{text}");
    let text = reach_text(mk(BinOpKind::Neq), 0);
    assert!(text.contains("(= v3 (not (= p0 p1)))"), "ptr neq:\n{text}");
}

// ---- Models ----

fn text(s: &str) -> String {
    s.to_string()
}

#[test]
fn guard_values_parses_z3native_arrow_format() {
    let m = "g0 -> true\ng1 -> false\np0 -> (ptr-addr #x0000000000000001)\n";
    let g = guard_values(m);
    assert_eq!(g.get(&text("g0")), Some(&true));
    assert_eq!(g.get(&text("g1")), Some(&false));
    assert_eq!(g.get(&text("p0")), None, "non-bool ignored");
}

#[test]
fn guard_values_parses_define_fun_format() {
    let m = "((define-fun g0 () Bool true)\n (define-fun g2 () Bool false))";
    let g = guard_values(m);
    assert_eq!(g.get(&text("g0")), Some(&true));
    assert_eq!(g.get(&text("g2")), Some(&false));
}

#[test]
fn guard_values_tolerates_garbage() {
    assert_eq!(guard_values("((((").len(), 0);
    assert_eq!(guard_values("").len(), 0);
}

fn guards(pairs: Vec<(&str, bool)>) -> SortedMap<String, bool> {
    let mut m = SortedMap::new();
    for (n, b) in pairs {
        m.insert(n.to_string(), b);
    }
    m
}

#[test]
fn violating_path_walks_true_guards() {
    let (p, id) = program(fun(vec![], vec![], diamond()));
    let f = p.func(id).unwrap();
    let dag = cut_back_edges(f);
    let g = guards(vec![("g0", true), ("g1", true), ("g2", false), ("g3", true)]);
    assert_eq!(violating_path(f, &dag, &g), vec![0, 1, 3]);
}

#[test]
fn violating_path_stops_at_dont_care() {
    let (p, id) = program(fun(vec![], vec![], diamond()));
    let f = p.func(id).unwrap();
    let dag = cut_back_edges(f);
    assert_eq!(violating_path(f, &dag, &guards(vec![("g0", true)])), vec![0]);
    assert!(violating_path(f, &dag, &guards(vec![])).is_empty());
}

#[test]
fn model_bindings_extracts_display_strings() {
    let m = "p0 -> (ptr-nil)\nv3 -> #x0000000000000005\n";
    let b = model_bindings(m);
    assert_eq!(b.get(&text("p0")).map(|s| s.as_str()), Some("(ptr-nil)"));
}

#[test]
fn nested_define_funs_keep_their_text() {
    let m = "(model (define-fun p0 () GoSeq (seq-val #x01 #x02)) (define-fun g1 () Bool true))";
    let b = model_bindings(m);
    assert_eq!(b.len(), 2);
    assert_eq!(b.get(&text("p0")).map(|s| s.as_str()), Some("(seq-val #x01 #x02)"));
    assert_eq!(b.get(&text("g1")).map(|s| s.as_str()), Some("true"));
}

// ---- Many functions ----

struct Lcg(u64);

impl Lcg {
    fn next(&mut self, n: u32) -> u32 {
        self.0 = self.0.wrapping_mul(6364136223846793005).wrapping_add(1442695040888963407);
        ((self.0 >> 33) as u32) % n
    }
}

/// A small function with arbitrary edges and operations.
fn arbitrary(r: &mut Lcg) -> Fun {
    let n = 1 + r.next(4);
    let mut succs: Vec<Vec<u32>> = Vec::new();
    for _ in 0..n {
        let mut s: Vec<u32> = (0..r.next(3)).map(|_| r.next(n)).collect();
        s.sort_unstable();
        s.dedup();
        succs.push(s);
    }
    let mut preds: Vec<Vec<u32>> = vec![vec![]; n as usize];
    for (b, ss) in succs.iter().enumerate() {
        for s in ss {
            preds[*s as usize].push(b as u32);
        }
    }
    let ints = [1u32, 2, 6, 7, 8, 9];
    let kinds = [BinOpKind::Add, BinOpKind::Sub, BinOpKind::Div, BinOpKind::Shl, BinOpKind::AndNot];
    let mut blocks = Vec::new();
    for b in 0..n as usize {
        let mut ops = Vec::new();
        for _ in 0..r.next(6) {
            let dst = 6 + r.next(4);
            let x = ints[r.next(6) as usize];
            let y = ints[r.next(6) as usize];
            ops.push(match r.next(6) {
                0 | 1 => binop(dst, kinds[r.next(5) as usize], x, y),
                2 => Op::UnOp { dst: v(dst), kind: UnOpKind::Neg, operand: v(x) },
                3 => phi(dst, (0..preds[b].len()).map(|_| ints[r.next(6) as usize]).collect()),
                4 => load(dst, 4),
                _ => Op::Store { addr: v(4), val: v(x) },
            });
        }
        ops.push(match succs[b].len() {
            0 => ret(vec![]),
            1 => Op::Jump,
            _ => Op::Branch { cond: v(3) },
        });
        blocks.push(block(ops, preds[b].clone(), succs[b].clone()));
    }
    fun(
        vec![(1, INT), (2, INT), (3, BOOL), (4, PTR)],
        vec![(6, INT), (7, INT), (8, INT), (9, INT)],
        blocks,
    )
}

#[test]
fn encode_never_panics_and_is_deterministic() {
    let mut r = Lcg(1);
    for _ in 0..64 {
        let (p, id) = program(arbitrary(&mut r));
        let a = encode_func(&p, id).unwrap();
        let b = encode_func(&p, id).unwrap();
        for bi in 0..a.guards.len() {
            assert_eq!(
                a.reach_query(bi, vec![]).canonical_text(),
                b.reach_query(bi, vec![]).canonical_text()
            );
        }
    }
}

#[test]
fn queries_are_well_formed() {
    // Every assertion is boolean and speaks of declared constants only, each declared once.
    let mut r = Lcg(7);
    for _ in 0..64 {
        let (p, id) = program(arbitrary(&mut r));
        let enc = encode_func(&p, id).unwrap();
        for bi in 0..enc.guards.len() {
            let q = enc.reach_query(bi, vec![]);
            let names: BTreeSet<&String> = q.consts.iter().map(|c| &c.0).collect();
            assert_eq!(names.len(), q.consts.len());
            for t in &q.asserts {
                assert_eq!(t.sort(), Sort::Bool);
                let vars = t.free_vars();
                for i in 0..vars.len() {
                    let c = (vars.key_at(i).clone(), *vars.value_at(i));
                    assert!(q.consts.contains(&c), "{c:?} is declared");
                }
            }
        }
    }
}

#[test]
fn function_without_a_body_is_not_encoded() {
    let (p, _) = program(fun(vec![], vec![], one_block(vec![ret(vec![])])));
    let e = encode_func(&p, FuncId(1)).unwrap_err();
    assert_eq!(e, "t.G: no body to encode");
}

#[test]
fn too_many_assertions_are_an_error() {
    let mut ops: Vec<Op> = (0..50_001).map(|_| binop(2, BinOpKind::Add, 1, 1)).collect();
    ops.push(ret(vec![]));
    let (p, id) = program(fun(vec![(1, INT)], vec![(2, INT)], one_block(ops)));
    assert!(encode_func(&p, id).is_err());
}

#[test]
fn callee_guarantees_enter_the_encoding() {
    // v2 = t.G(); t.G guarantees that its result is not nil.
    let call = Op::Call { dst: Some(v(2)), callee: Callee::Static(FuncId(1)), args: vec![] };
    let (p, id) = program(fun(vec![], vec![(2, PTR)], one_block(vec![call, ret(vec![2])])));
    let term = Term::not(ptr_is_nil(Term::var("r0", Sort::Ptr)).unwrap()).unwrap();
    let mut s = Summary::default();
    s.ensures_.push(Clause {
        tag: "nil-deref".to_string(),
        formula: Formula { term },
        provenance: Provenance::Inferred,
    });
    let t = SummaryTable { entries: vec![Some(Summary::default()), Some(s)] };
    let enc = encode_func_with(&p, id, &t).unwrap();
    let nil = ptr_is_nil(enc.value(v(2)).unwrap().dup()).unwrap();
    assert_eq!(solve(&enc.reach_query(0, vec![nil.dup()])), CachedOutcome::Unsat);
    let plain = encode_func(&p, id).unwrap();
    assert!(matches!(solve(&plain.reach_query(0, vec![nil])), CachedOutcome::Sat { .. }));
}

#[test]
fn an_assumption_excludes_its_negation() {
    let enc = encoded(fun(vec![(1, 1)], vec![], diamond()));
    for b in 0..4 {
        let g = enc.guard_term(b).unwrap();
        let not = Term::not(g.dup()).unwrap();
        assert!(matches!(solve(&enc.reach_query(b, vec![g])), CachedOutcome::Sat { .. }));
        assert_eq!(solve(&enc.reach_query(b, vec![not])), CachedOutcome::Unsat);
    }
}

// ---- A small model finder ----
//
// It tries a handful of values for each constant that is not defined by an equality. A model
// that it finds is one; that it finds none only means that none is among the values tried,
// which are chosen so that the queries below are decided.

#[derive(Debug, Clone, PartialEq, Eq)]
enum Val {
    Bool(bool),
    Bv(u32, u128),
    Ptr(u64),
    Slice(u128, u128),
}

type Env = BTreeMap<String, Val>;

fn mask(w: u32) -> u128 {
    if w >= 128 { u128::MAX } else { (1u128 << w) - 1 }
}

fn signed(w: u32, x: u128) -> i128 {
    if w < 128 && x >> (w - 1) == 1 { x as i128 - (1i128 << w) } else { x as i128 }
}

fn bin(op: BvBinOp, w: u32, a: u128, b: u128) -> u128 {
    let (sa, sb) = (signed(w, a), signed(w, b));
    let r = match op {
        BvBinOp::Add => a.wrapping_add(b),
        BvBinOp::Sub => a.wrapping_sub(b),
        BvBinOp::Mul => a.wrapping_mul(b),
        BvBinOp::And => a & b,
        BvBinOp::Or => a | b,
        BvBinOp::Xor => a ^ b,
        BvBinOp::Shl => {
            if b >= w as u128 { 0 } else { a << b }
        }
        BvBinOp::Lshr => {
            if b >= w as u128 { 0 } else { a >> b }
        }
        BvBinOp::Ashr => {
            let n = if b >= w as u128 { w - 1 } else { b as u32 };
            (sa >> n) as u128
        }
        BvBinOp::Udiv => {
            if b == 0 { mask(w) } else { a / b }
        }
        BvBinOp::Urem => {
            if b == 0 { a } else { a % b }
        }
        BvBinOp::Sdiv => {
            if b == 0 {
                if sa < 0 { 1 } else { mask(w) }
            } else {
                sa.wrapping_div(sb) as u128
            }
        }
        BvBinOp::Srem => {
            if b == 0 { a } else { sa.wrapping_rem(sb) as u128 }
        }
    };
    r & mask(w)
}

fn eval(t: &Term, env: &Env) -> Option<Val> {
    Some(match t {
        Term::Var(n, _) => env.get(n)?.clone(),
        Term::BoolLit(b) => Val::Bool(*b),
        Term::BvLit(w, v) => Val::Bv(*w, *v & mask(*w)),
        Term::Eq(a, b) => Val::Bool(eval(a, env)? == eval(b, env)?),
        Term::Not(a) => match eval(a, env)? {
            Val::Bool(b) => Val::Bool(!b),
            _ => return None,
        },
        Term::And(v) => {
            let mut open = false;
            for x in v {
                match eval(x, env) {
                    Some(Val::Bool(false)) => return Some(Val::Bool(false)),
                    Some(_) => {}
                    None => open = true,
                }
            }
            if open {
                return None;
            }
            Val::Bool(true)
        }
        Term::Or(v) => {
            let mut open = false;
            for x in v {
                match eval(x, env) {
                    Some(Val::Bool(true)) => return Some(Val::Bool(true)),
                    Some(_) => {}
                    None => open = true,
                }
            }
            if open {
                return None;
            }
            Val::Bool(false)
        }
        Term::Ite(c, a, b) => match eval(c, env)? {
            Val::Bool(true) => eval(a, env)?,
            _ => eval(b, env)?,
        },
        Term::BvBin(op, a, b) => match (eval(a, env)?, eval(b, env)?) {
            (Val::Bv(w, x), Val::Bv(_, y)) => Val::Bv(w, bin(*op, w, x, y)),
            _ => return None,
        },
        Term::BvCmp(op, a, b) => match (eval(a, env)?, eval(b, env)?) {
            (Val::Bv(w, x), Val::Bv(_, y)) => Val::Bool(match op {
                BvCmpOp::Ult => x < y,
                BvCmpOp::Ule => x <= y,
                BvCmpOp::Slt => signed(w, x) < signed(w, y),
                BvCmpOp::Sle => signed(w, x) <= signed(w, y),
            }),
            _ => return None,
        },
        Term::PtrNil => Val::Ptr(0),
        Term::PtrIsNil(a) => match eval(a, env)? {
            Val::Ptr(x) => Val::Bool(x == 0),
            _ => return None,
        },
        Term::SeqVal(a, b) => match (eval(a, env)?, eval(b, env)?) {
            (Val::Bv(_, x), Val::Bv(_, y)) => Val::Slice(x, y),
            _ => return None,
        },
        Term::SeqLen(a) => match eval(a, env)? {
            Val::Slice(x, _) => Val::Bv(64, x),
            _ => return None,
        },
        Term::SeqCap(a) => match eval(a, env)? {
            Val::Slice(_, y) => Val::Bv(64, y),
            _ => return None,
        },
    })
}

fn literals(t: &Term, out: &mut BTreeSet<u128>) {
    match t {
        Term::BvLit(_, v) => {
            out.insert(*v);
        }
        Term::Var(_, _) | Term::BoolLit(_) | Term::PtrNil => {}
        Term::Not(a) | Term::PtrIsNil(a) | Term::SeqLen(a) | Term::SeqCap(a) => literals(a, out),
        Term::Eq(a, b) | Term::BvBin(_, a, b) | Term::BvCmp(_, a, b) | Term::SeqVal(a, b) => {
            literals(a, out);
            literals(b, out);
        }
        Term::Ite(c, a, b) => {
            literals(c, out);
            literals(a, out);
            literals(b, out);
        }
        Term::And(v) | Term::Or(v) => {
            for x in v {
                literals(x, out);
            }
        }
    }
}

fn flatten<'a>(t: &'a Term, out: &mut Vec<&'a Term>) {
    match t {
        Term::And(v) => {
            for x in v {
                flatten(x, out);
            }
        }
        _ => out.push(t),
    }
}

/// Assigns what the assertions define. `None` where one of them fails.
fn propagate(asserts: &[&Term], env: &mut Env) -> Option<()> {
    loop {
        let mut progress = false;
        for t in asserts {
            match eval(t, env) {
                Some(Val::Bool(true)) => continue,
                Some(_) => return None,
                None => {}
            }
            match t {
                Term::Eq(a, b) => {
                    for (x, y) in [(a, b), (b, a)] {
                        if let Term::Var(n, _) = &**x {
                            if !env.contains_key(n) {
                                if let Some(v) = eval(y, env) {
                                    env.insert(n.clone(), v);
                                    progress = true;
                                    break;
                                }
                            }
                        }
                    }
                }
                Term::Var(n, _) => {
                    env.insert(n.clone(), Val::Bool(true));
                    progress = true;
                }
                Term::Not(a) => {
                    if let Term::Var(n, _) = &**a {
                        env.insert(n.clone(), Val::Bool(false));
                        progress = true;
                    }
                }
                _ => {}
            }
        }
        if !progress {
            return Some(());
        }
    }
}

fn choices(sort: Sort, lits: &BTreeSet<u128>) -> Vec<Val> {
    match sort {
        Sort::Bool => vec![Val::Bool(true), Val::Bool(false)],
        Sort::Ptr => vec![Val::Ptr(0), Val::Ptr(1), Val::Ptr(2)],
        Sort::BitVec(w) => {
            let mut s: Vec<u128> = vec![0, 1, 2, 5];
            s.push(mask(w));
            s.push(mask(w) >> 1);
            s.push((mask(w) >> 1) + 1);
            for l in lits {
                s.push(l.wrapping_sub(1) & mask(w));
                s.push(*l & mask(w));
                s.push(l.wrapping_add(1) & mask(w));
            }
            let mut seen = BTreeSet::new();
            s.into_iter().filter(|x| seen.insert(*x)).map(|x| Val::Bv(w, x)).collect()
        }
        Sort::GoSeq => {
            let mut s: Vec<u128> = vec![0, 1, 2, 3, 5];
            for l in lits {
                if *l < 1000 {
                    s.push(*l);
                    s.push(*l + 1);
                }
            }
            let mut out = Vec::new();
            for a in &s {
                out.push(Val::Slice(*a, *a));
                out.push(Val::Slice(*a, *a + 2));
            }
            out
        }
    }
}

fn search(asserts: &[&Term], consts: &[(String, Sort)], lits: &BTreeSet<u128>, env: Env) -> Option<Env> {
    let mut env = env;
    propagate(asserts, &mut env)?;
    let used: BTreeSet<String> = asserts
        .iter()
        .filter(|t| eval(t, &env).is_none())
        .flat_map(|t| {
            let m = t.free_vars();
            (0..m.len()).map(|i| m.key_at(i).clone()).collect::<Vec<_>>()
        })
        .collect();
    let next = consts.iter().find(|(n, _)| used.contains(n) && !env.contains_key(n));
    let (name, sort) = match next {
        Some(c) => c,
        None => return Some(env),
    };
    for v in choices(*sort, lits) {
        let mut e = env.clone();
        e.insert(name.clone(), v);
        if let Some(found) = search(asserts, consts, lits, e) {
            return Some(found);
        }
    }
    None
}

fn model_text(env: &Env) -> String {
    let mut out = String::new();
    for (n, v) in env {
        let text = match v {
            Val::Bool(b) => format!("{b}"),
            Val::Bv(w, x) => format!("(_ bv{x} {w})"),
            Val::Ptr(0) => "ptr-nil".to_string(),
            Val::Ptr(x) => format!("(ptr-addr #x{x:016x})"),
            Val::Slice(a, b) => format!("(seq-val {a} {b})"),
        };
        out.push_str(&format!("{n} -> {text}\n"));
    }
    out
}

fn solve(q: &Query) -> CachedOutcome {
    let mut asserts = Vec::new();
    let mut lits = BTreeSet::new();
    for t in &q.asserts {
        assert_eq!(t.sort(), Sort::Bool, "assertions are boolean");
        let vars = t.free_vars();
        for i in 0..vars.len() {
            let c = (vars.key_at(i).clone(), *vars.value_at(i));
            assert!(q.consts.contains(&c), "{c:?} is declared");
        }
        flatten(t, &mut asserts);
        literals(t, &mut lits);
    }
    match search(&asserts, &q.consts, &lits, Env::new()) {
        Some(env) => CachedOutcome::Sat { model: Some(model_text(&env)) },
        None => CachedOutcome::Unsat,
    }
}
