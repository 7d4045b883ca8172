use goverify::effects::{
    add_at, closure_bindings, collect, rebase, resolve_loc, ChanOp, ChanOps, Effects, Loc, LockOp,
    LockOps, Root, Spawns,
};
use goverify::graph::cyclic_blocks;
use goverify::ir::{
    Block, CallGraph, Callee, FuncDecl, FuncId, Function, Instr, LockKind, MakeKind, Op, Program,
    TypeId, TypeTable, ValueId, ValueInfo, ValueKind,
};
use goverify::summary::{Summary, SummaryTable};

fn v(i: u32) -> ValueId {
    ValueId(i)
}

fn block(ops: Vec<Op>, succs: Vec<u32>) -> Block {
    let instrs = ops.into_iter().map(|op| Instr { op, pos: None }).collect();
    Block { instrs, succs, preds: vec![] }
}

fn ret() -> Op {
    Op::Return { vals: vec![] }
}

fn body(params: Vec<u32>, free_vars: Vec<u32>, blocks: Vec<Block>) -> Function {
    let mut values = Vec::new();
    for i in 0..10 {
        let kind = if params.contains(&i) {
            ValueKind::Param
        } else if free_vars.contains(&i) {
            ValueKind::FreeVar
        } else {
            ValueKind::Register
        };
        values.push(ValueInfo { ty: TypeId(0), kind });
    }
    Function {
        params: params.into_iter().map(ValueId).collect(),
        free_vars: free_vars.into_iter().map(ValueId).collect(),
        sig: TypeId(0),
        values,
        blocks,
    }
}

fn program(funcs: Vec<(&str, Option<Function>)>) -> Program {
    Program {
        funcs: funcs
            .into_iter()
            .map(|(name, body)| FuncDecl { name: name.to_string(), body, ir_hash: [0; 32] })
            .collect(),
        types: TypeTable { entries: vec![] },
    }
}

fn graph(edges: Vec<Vec<u32>>) -> CallGraph {
    CallGraph {
        edges: edges
            .into_iter()
            .map(|es| es.into_iter().map(FuncId).collect())
            .collect(),
    }
}

/// Summaries that do nothing, for `n` functions.
fn idle(n: usize) -> SummaryTable {
    SummaryTable { entries: (0..n).map(|_| Some(Summary::default())).collect() }
}

fn doing(n: usize, f: u32, effects: Effects) -> SummaryTable {
    let mut t = idle(n);
    let mut s = Summary::default();
    s.effects = effects;
    t.entries[f as usize] = Some(s);
    t
}

fn loc(root: Root, path: Vec<u32>) -> Loc {
    Loc { root, path }
}

fn chan_at(e: &Effects, l: &Loc, op: ChanOp) -> bool {
    match e.chan_ops.get(l) {
        Some(ops) => ops.contains(op),
        None => false,
    }
}

fn lock_at(e: &Effects, l: &Loc, op: LockOp) -> bool {
    match e.lock_ops.get(l) {
        Some(ops) => ops.contains(op),
        None => false,
    }
}

fn any_chan(e: &Effects, op: ChanOp) -> bool {
    (0..e.chan_ops.len()).any(|i| e.chan_ops.value_at(i).contains(op))
}

fn any_lock(e: &Effects, op: LockOp) -> bool {
    (0..e.lock_ops.len()).any(|i| e.lock_ops.value_at(i).contains(op))
}

fn close_builtin() -> Callee {
    Callee::Builtin("close".to_string())
}

#[test]
fn defer_close_builtin_records_chanop_close() {
    let p = program(vec![(
        "t.F",
        Some(body(
            vec![],
            vec![],
            vec![block(
                vec![Op::Defer { callee: close_builtin(), args: vec![v(1)] }, ret()],
                vec![],
            )],
        )),
    )]);
    let e = collect(&p, FuncId(0), &graph(vec![vec![]]), &idle(1));
    assert!(any_chan(&e, ChanOp::Close), "defer close(ch) closes: {e:?}");
}

#[test]
fn go_close_builtin_records_chanop_close_and_spawn() {
    let p = program(vec![(
        "t.F",
        Some(body(
            vec![],
            vec![],
            vec![block(vec![Op::Go { callee: close_builtin(), args: vec![v(1)] }, ret()], vec![])],
        )),
    )]);
    let e = collect(&p, FuncId(0), &graph(vec![vec![]]), &idle(1));
    assert!(any_chan(&e, ChanOp::Close), "go close(ch) closes: {e:?}");
    assert_eq!(e.spawns, Spawns::Bounded);
}

#[test]
fn defer_lock_method_records_deferred_unlock() {
    let p = program(vec![
        ("(*sync.Mutex).Unlock", None),
        (
            "t.F",
            Some(body(
                vec![],
                vec![],
                vec![block(
                    vec![Op::Defer { callee: Callee::Static(FuncId(0)), args: vec![] }, ret()],
                    vec![],
                )],
            )),
        ),
    ]);
    // The callee is external, and an edge of the call graph too.
    let mut t = idle(2);
    t.entries[0] = Some(Summary::havoc());
    let e = collect(&p, FuncId(1), &graph(vec![vec![], vec![0]]), &t);
    assert!(
        any_lock(&e, LockOp::DeferredUnlock),
        "defer mu.Unlock() is DeferredUnlock, not Unlock: {e:?}"
    );
    assert!(!any_lock(&e, LockOp::Unlock), "not recorded as plain Unlock too");
}

#[test]
fn lock_on_param_gets_param_rooted_loc() {
    let p = program(vec![(
        "t.F",
        Some(body(
            vec![1],
            vec![],
            vec![block(vec![Op::Lock { kind: LockKind::Lock, mu: v(1) }, ret()], vec![])],
        )),
    )]);
    let e = collect(&p, FuncId(0), &graph(vec![vec![]]), &idle(1));
    let want = loc(Root::Param(0), vec![]);
    assert!(lock_at(&e, &want, LockOp::Lock), "Lock at the parameter: {e:?}");
}

#[test]
fn effects_top_is_unknown_bucket() {
    let t = Effects::top();
    assert_eq!(t.lock_ops.len(), 1);
    let ops = *t.lock_ops.get(&Loc::unknown()).unwrap();
    let all = [
        LockOp::Lock,
        LockOp::Unlock,
        LockOp::RLock,
        LockOp::RUnlock,
        LockOp::DeferredUnlock,
        LockOp::DeferredRUnlock,
    ];
    assert_eq!(
        all.iter().filter(|op| ops.contains(**op)).count(),
        6,
        "all six LockOps incl. deferred variants"
    );
}

fn locks(l: Loc) -> Effects {
    let mut e = Effects::empty();
    add_at(&mut e.lock_ops, l, LockOps::of(LockOp::Lock));
    e
}

fn sends(l: Loc) -> Effects {
    let mut e = Effects::empty();
    add_at(&mut e.chan_ops, l, ChanOps::of(ChanOp::Send));
    e
}

#[test]
fn rebase_reroots_param_entries_through_caller_args() {
    let callee = locks(loc(Root::Param(0), vec![1]));
    let rebased = rebase(&callee, &vec![loc(Root::Param(3), vec![2])], &vec![]);
    let want = loc(Root::Param(3), vec![2, 1]);
    assert!(rebased.lock_ops.get(&want).is_some(), "{rebased:?}");
}

#[test]
fn rebase_depth_overflow_degrades_to_unknown() {
    let callee = locks(loc(Root::Param(0), vec![1, 2]));
    let rebased = rebase(&callee, &vec![loc(Root::Param(0), vec![3])], &vec![]);
    assert!(
        rebased.lock_ops.get(&Loc::unknown()).is_some(),
        "a path of three fields is too long: {rebased:?}"
    );
}

#[test]
fn rebase_callee_alloc_becomes_unknown() {
    let callee = locks(loc(Root::Alloc(7), vec![]));
    let rebased = rebase(&callee, &vec![], &vec![]);
    assert_eq!(rebased.lock_ops.len(), 1);
    assert_eq!(rebased.lock_ops.key_at(0), &Loc::unknown());
}

#[test]
fn go_in_loop_is_unbounded_spawn() {
    // b0 -> b1; b1 starts a goroutine and loops to itself; b1 -> b2.
    let go = Op::Go { callee: Callee::Static(FuncId(1)), args: vec![] };
    let p = program(vec![
        (
            "t.F",
            Some(body(
                vec![],
                vec![],
                vec![
                    block(vec![Op::Jump], vec![1]),
                    block(vec![go, Op::Jump], vec![1, 2]),
                    block(vec![ret()], vec![]),
                ],
            )),
        ),
        ("t.G", None),
    ]);
    let e = collect(&p, FuncId(0), &graph(vec![vec![1], vec![]]), &idle(2));
    assert_eq!(e.spawns, Spawns::Unbounded);
    assert_eq!(cyclic_blocks(p.funcs[0].body.as_ref().unwrap()), vec![false, true, false]);
}

#[test]
fn straight_line_go_is_bounded() {
    let go = Op::Go { callee: Callee::Static(FuncId(1)), args: vec![] };
    let p = program(vec![
        ("t.F", Some(body(vec![], vec![], vec![block(vec![go, ret()], vec![])]))),
        ("t.G", None),
    ]);
    let e = collect(&p, FuncId(0), &graph(vec![vec![1], vec![]]), &idle(2));
    assert_eq!(e.spawns, Spawns::Bounded);
}

fn make_chan(dst: u32, cap: u32) -> Op {
    Op::Make { dst: v(dst), kind: MakeKind::Chan, args: vec![v(cap)] }
}

#[test]
fn make_chan_dst_roots_at_alloc_site() {
    let p = program(vec![(
        "t.F",
        Some(body(
            vec![],
            vec![],
            vec![block(vec![make_chan(2, 1), Op::Send { chan: v(2), val: v(1) }, ret()], vec![])],
        )),
    )]);
    let e = collect(&p, FuncId(0), &graph(vec![vec![]]), &idle(1));
    let want = loc(Root::Alloc(2), vec![]);
    assert!(chan_at(&e, &want, ChanOp::Send), "the send is at the channel's own place: {e:?}");
}

fn sender() -> Function {
    body(
        vec![],
        vec![1],
        vec![block(vec![Op::Send { chan: v(1), val: v(1) }, ret()], vec![])],
    )
}

#[test]
fn free_var_value_roots_at_free_var_ordinal() {
    let p = program(vec![("t.F$1", Some(sender()))]);
    let e = collect(&p, FuncId(0), &graph(vec![vec![]]), &idle(1));
    let want = loc(Root::FreeVar(0), vec![]);
    assert!(chan_at(&e, &want, ChanOp::Send), "{e:?}");
}

#[test]
fn load_hop_collapses_cell_and_content() {
    let p = program(vec![(
        "t.F",
        Some(body(
            vec![],
            vec![],
            vec![block(
                vec![
                    Op::Alloc { dst: v(2), heap: true },
                    Op::Load { dst: v(3), addr: v(2) },
                    Op::Send { chan: v(3), val: v(1) },
                    ret(),
                ],
                vec![],
            )],
        )),
    )]);
    let e = collect(&p, FuncId(0), &graph(vec![vec![]]), &idle(1));
    let want = loc(Root::Alloc(2), vec![]);
    assert!(chan_at(&e, &want, ChanOp::Send), "{e:?}");
}

#[test]
fn rebase_free_var_reroots_through_fv_loc() {
    let callee = sends(loc(Root::FreeVar(0), vec![]));
    let rebased = rebase(&callee, &vec![], &vec![loc(Root::Alloc(7), vec![])]);
    assert!(rebased.chan_ops.get(&loc(Root::Alloc(7), vec![])).is_some());
}

#[test]
fn rebase_free_var_without_mapping_degrades_to_unknown() {
    let callee = sends(loc(Root::FreeVar(3), vec![]));
    let rebased = rebase(&callee, &vec![], &vec![]);
    assert_eq!(rebased.chan_ops.len(), 1);
    assert_eq!(rebased.chan_ops.key_at(0), &Loc::unknown());
}

fn spawner(ops: Vec<Op>) -> Program {
    program(vec![
        ("t.F", Some(body(vec![], vec![], vec![block(ops, vec![])]))),
        ("t.F$1", Some(sender())),
    ])
}

#[test]
fn go_closure_send_rebases_free_var_through_bindings() {
    // v2 = make(chan); v3 = closure t.F$1 [v2]; go t.F$1()
    let p = spawner(vec![
        make_chan(2, 1),
        Op::MakeClosure { dst: v(3), func: FuncId(1), bindings: vec![v(2)] },
        Op::Go { callee: Callee::Static(FuncId(1)), args: vec![] },
        ret(),
    ]);
    let g = graph(vec![vec![1], vec![]]);
    let inner = collect(&p, FuncId(1), &g, &idle(2));
    let e = collect(&p, FuncId(0), &g, &doing(2, 1, inner));
    let want = loc(Root::Alloc(2), vec![]);
    assert!(chan_at(&e, &want, ChanOp::Send), "the captured channel is the spawner's: {e:?}");
    assert_eq!(e.spawns, Spawns::Bounded);
}

#[test]
fn ambiguous_make_closure_degrades_free_var_to_unknown() {
    let p = spawner(vec![
        make_chan(2, 1),
        make_chan(5, 1),
        Op::MakeClosure { dst: v(3), func: FuncId(1), bindings: vec![v(2)] },
        Op::MakeClosure { dst: v(4), func: FuncId(1), bindings: vec![v(5)] },
        Op::Go { callee: Callee::Static(FuncId(1)), args: vec![] },
        ret(),
    ]);
    let g = graph(vec![vec![1], vec![]]);
    let inner = collect(&p, FuncId(1), &g, &idle(2));
    let e = collect(&p, FuncId(0), &g, &doing(2, 1, inner));
    assert!(chan_at(&e, &Loc::unknown(), ChanOp::Send), "ambiguous bindings degrade: {e:?}");
    assert!(!chan_at(&e, &loc(Root::Alloc(2), vec![]), ChanOp::Send));
    assert!(!chan_at(&e, &loc(Root::Alloc(5), vec![]), ChanOp::Send));
    assert!(closure_bindings(p.funcs[0].body.as_ref().unwrap(), FuncId(1)).is_none());
}

#[test]
fn callee_effects_join_in() {
    let call = Op::Call { dst: None, callee: Callee::Static(FuncId(1)), args: vec![] };
    let p = program(vec![
        ("t.F", Some(body(vec![], vec![], vec![block(vec![call, ret()], vec![])]))),
        ("t.G", None),
    ]);
    let g = graph(vec![vec![1], vec![]]);
    let e = collect(&p, FuncId(0), &g, &doing(2, 1, locks(Loc::unknown())));
    assert!(any_lock(&e, LockOp::Lock));
}

#[test]
fn join_is_commutative_idempotent_monotone() {
    let mut samples = vec![Effects::empty(), Effects::top()];
    samples.push(locks(loc(Root::Param(1), vec![2])));
    samples.push(sends(loc(Root::Global("t.G".to_string()), vec![])));
    let mut mixed = sends(loc(Root::FreeVar(0), vec![3]));
    mixed.spawns = Spawns::Bounded;
    mixed.join(&locks(loc(Root::Alloc(4), vec![])));
    samples.push(mixed);
    for a in &samples {
        for b in &samples {
            let mut ab = a.dup();
            ab.join(b);
            let mut ba = b.dup();
            ba.join(a);
            assert_eq!(ab, ba, "commutative");
            let mut aa = a.dup();
            aa.join(a);
            assert_eq!(&aa, a, "idempotent");
            let mut ab_join_a = ab.dup();
            ab_join_a.join(a);
            assert_eq!(ab_join_a, ab, "monotone");
            let mut t = Effects::top();
            t.join(a);
            let mut a_top = a.dup();
            a_top.join(&Effects::top());
            assert_eq!(a_top, t, "top absorbs symmetrically");
        }
    }
}

#[test]
fn field_path_deeper_than_two_is_unknown() {
    let f = body(
        vec![1],
        vec![],
        vec![block(
            vec![
                Op::FieldAddr { dst: v(2), base: v(1), field: 4 },
                Op::FieldAddr { dst: v(3), base: v(2), field: 5 },
                Op::FieldAddr { dst: v(4), base: v(3), field: 6 },
                ret(),
            ],
            vec![],
        )],
    );
    assert_eq!(resolve_loc(&f, v(2)), loc(Root::Param(0), vec![4]));
    assert_eq!(resolve_loc(&f, v(3)), loc(Root::Param(0), vec![4, 5]));
    assert_eq!(resolve_loc(&f, v(4)), Loc::unknown());
    assert_eq!(resolve_loc(&f, v(9)), Loc::unknown());
}

#[test]
fn empty_effects_are_empty() {
    assert!(Effects::empty().is_empty());
    assert!(!Effects::top().is_empty());
    assert!(!locks(Loc::unknown()).is_empty());
    assert!(Effects::empty().same(&Effects::empty()));
    assert!(!Effects::empty().same(&Effects::top()));
}

#[test]
fn collecting_grows_with_the_callees() {
    let call = Op::Call { dst: None, callee: Callee::Static(FuncId(1)), args: vec![v(1)] };
    let p = program(vec![
        ("t.F", Some(body(vec![1], vec![], vec![block(vec![call, ret()], vec![])]))),
        ("t.G", None),
    ]);
    let g = graph(vec![vec![1], vec![]]);
    let some = locks(loc(Root::Param(0), vec![4]));
    let mut more = some.dup();
    more.join(&sends(loc(Root::Param(0), vec![5])));
    let less = collect(&p, FuncId(0), &g, &doing(2, 1, some));
    let all = collect(&p, FuncId(0), &g, &doing(2, 1, more));
    assert!(lock_at(&less, &loc(Root::Param(0), vec![4]), LockOp::Lock), "the call is covered");
    assert!(chan_at(&all, &loc(Root::Param(0), vec![5]), ChanOp::Send));
    assert_ne!(less, all);
    let mut both = less.dup();
    both.join(&all);
    assert_eq!(both, all, "nothing is lost");
}

#[test]
fn dispatched_callees_are_covered() {
    let p = program(vec![
        ("t.F", Some(body(vec![], vec![], vec![block(vec![ret()], vec![])]))),
        ("t.G", None),
    ]);
    let g = graph(vec![vec![1], vec![]]);
    let e = collect(&p, FuncId(0), &g, &doing(2, 1, locks(loc(Root::Param(0), vec![]))));
    assert!(lock_at(&e, &Loc::unknown(), LockOp::Lock), "at an unknown place: {e:?}");
}

#[test]
fn collected_paths_stay_within_the_cap() {
    let call = Op::Call { dst: None, callee: Callee::Static(FuncId(1)), args: vec![v(2)] };
    let field = Op::FieldAddr { dst: v(2), base: v(1), field: 7 };
    let p = program(vec![
        ("t.F", Some(body(vec![1], vec![], vec![block(vec![field, call, ret()], vec![])]))),
        ("t.G", None),
    ]);
    let g = graph(vec![vec![1], vec![]]);
    let short = locks(loc(Root::Param(0), vec![4]));
    let e = collect(&p, FuncId(0), &g, &doing(2, 1, short));
    assert!(lock_at(&e, &loc(Root::Param(0), vec![7, 4]), LockOp::Lock));
    let long = locks(loc(Root::Param(0), vec![4, 5]));
    let e = collect(&p, FuncId(0), &g, &doing(2, 1, long));
    assert!(lock_at(&e, &Loc::unknown(), LockOp::Lock), "{e:?}");
}
