use goverify::ir::{
    BinOpKind, Block, FuncDecl, FuncId, Function, Instr, Op, Program, TypeEntry, TypeId, TypeKind,
    TypeTable, ValueId, ValueInfo, ValueKind,
};
use goverify::prepass::value_clean;

fn v(i: u32) -> ValueId {
    ValueId(i)
}

fn basic(name: &str) -> TypeEntry {
    TypeEntry { repr: name.to_string(), kind: TypeKind::Basic { name: name.to_string() } }
}

/// Whether t.F is clean, with these types, of which the first has id 1, parameters by type,
/// and operation, which defines a value of the given type.
fn clean(types: Vec<TypeEntry>, params: Vec<u32>, op: Op, ty: u32) -> bool {
    let mut entries = vec![TypeEntry { repr: String::new(), kind: TypeKind::Unknown }];
    entries.extend(types);
    let mut values = vec![ValueInfo { ty: TypeId(0), kind: ValueKind::Opaque }];
    for t in &params {
        values.push(ValueInfo { ty: TypeId(*t), kind: ValueKind::Param });
    }
    values.push(ValueInfo { ty: TypeId(ty), kind: ValueKind::Register });
    let instrs = vec![
        Instr { op, pos: None },
        Instr { op: Op::Return { vals: vec![] }, pos: None },
    ];
    let body = Function {
        params: (0..params.len()).map(|i| v(i as u32 + 1)).collect(),
        free_vars: vec![],
        sig: TypeId(0),
        values,
        blocks: vec![Block { instrs, succs: vec![], preds: vec![] }],
    };
    let p = Program {
        funcs: vec![FuncDecl { name: "t.F".to_string(), body: Some(body), ir_hash: [0; 32] }],
        types: TypeTable { entries },
    };
    value_clean(&p, FuncId(0))
}

#[test]
fn param_deref_is_not_clean() {
    let pointer =
        TypeEntry { repr: "*int".to_string(), kind: TypeKind::Pointer { elem: TypeId(1) } };
    let load = Op::Load { dst: v(2), addr: v(1) };
    assert!(!clean(vec![basic("int"), pointer], vec![2], load, 0));
}

#[test]
fn pure_arithmetic_is_clean() {
    let add = Op::BinOp { dst: v(3), kind: BinOpKind::Add, lhs: v(1), rhs: v(2) };
    assert!(clean(vec![basic("int")], vec![1, 1], add, 0));
}

#[test]
fn division_is_not_clean() {
    let div = Op::BinOp { dst: v(3), kind: BinOpKind::Div, lhs: v(1), rhs: v(2) };
    assert!(!clean(vec![basic("int")], vec![1, 1], div, 0));
    let rem = Op::BinOp { dst: v(3), kind: BinOpKind::Rem, lhs: v(1), rhs: v(2) };
    assert!(!clean(vec![basic("int")], vec![1, 1], rem, 0));
}

fn conversion_is_clean(from: &str, to: &str) -> bool {
    clean(vec![basic(from), basic(to)], vec![1], Op::Convert { dst: v(2), src: v(1) }, 2)
}

#[test]
fn narrowing_convert_is_not_clean() {
    assert!(!conversion_is_clean("int64", "int8"));
}

#[test]
fn cross_signedness_same_width_convert_is_not_clean() {
    assert!(!conversion_is_clean("int64", "uint64"));
}

#[test]
fn float_to_int_same_width_convert_is_not_clean() {
    assert!(!conversion_is_clean("float64", "int64"));
}

#[test]
fn widening_same_family_convert_is_clean() {
    assert!(conversion_is_clean("int32", "int64"));
}

#[test]
fn narrowing_same_family_convert_is_not_clean() {
    assert!(!conversion_is_clean("int64", "int32"));
}

#[test]
fn a_body_that_is_not_there_is_not_clean() {
    let p = Program {
        funcs: vec![FuncDecl { name: "t.F".to_string(), body: None, ir_hash: [0; 32] }],
        types: TypeTable { entries: vec![] },
    };
    assert!(!value_clean(&p, FuncId(0)));
    assert!(!value_clean(&p, FuncId(7)));
}
