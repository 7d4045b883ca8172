#![allow(dead_code)]

use std::collections::{BTreeMap, BTreeSet};

use goverify::answers::Answers;
use goverify::checker::{Checker, Finding, Severity};
use goverify::checkers::default_checkers;
use goverify::effects::{add_at, ChanOp, ChanOps, Effects, Loc, Root};
use goverify::engine::{analyze_full, EngineConfig};
use goverify::escape::escapes;
use goverify::ir::{
    BinOpKind, Block, CallGraph, Callee, ConstVal, FuncDecl, FuncId, Function, Instr, MakeKind, Op,
    Pos, Program, Sccs, SelectArm, TypeEntry, TypeId, TypeKind, TypeTable, ValueId, ValueInfo,
    ValueKind,
};
use goverify::leak::{
    arm_has_counterpart, candidates, cap_class, has_counterpart, prefixed, CandKind, Candidate,
    CapClass, HopKind, LeakChecker,
};
use goverify::query::Query;
use goverify::query_cache::CachedOutcome;
use goverify::summary::{Clause, Summary, SummaryTable};
use goverify::term::{BvBinOp, BvCmpOp, Sort, Term};

/// The functions that a program may hold, in the order of their ids.
const NAMES: [&str; 16] = [
    "ext.NoBody", "t.A", "t.Caller", "t.F", "t.F$1", "t.G", "t.H", "t.HV", "t.K", "t.LocalNil",
    "t.M", "t.P", "t.W", "t.X", "t.Y", "t.Z",
];

fn untyped(funs: Vec<Fun>) -> Program {
    program(vec![], funs)
}

fn make_chan(dst: u32, cap: u32) -> Ins {
    def(Op::Make { dst: v(dst), kind: MakeKind::Chan, args: vs(vec![cap]) }, dst, 0)
}

fn go(callee: &str, args: Vec<u32>) -> Ins {
    ins(Op::Go { callee: Callee::Static(fid(callee)), args: vs(args) })
}

fn send(chan: u32, val: u32) -> Ins {
    ins(Op::Send { chan: v(chan), val: v(val) })
}

fn recv(dst: u32, chan: u32) -> Ins {
    def(Op::Recv { dst: v(dst), chan: v(chan), comma_ok: false }, dst, 0)
}

fn store(addr: u32, val: u32) -> Ins {
    ins(Op::Store { addr: v(addr), val: v(val) })
}

fn alloc_cell(dst: u32) -> Ins {
    def(Op::Alloc { dst: v(dst), heap: true }, dst, 0)
}

fn load(dst: u32, addr: u32) -> Ins {
    def(Op::Load { dst: v(dst), addr: v(addr) }, dst, 0)
}

fn make_closure(dst: u32, func: &str, bindings: Vec<u32>) -> Ins {
    def(Op::MakeClosure { dst: v(dst), func: fid(func), bindings: vs(bindings) }, dst, 0)
}

/// A select over arms (direction, channel, sent value or 0).
fn select(dst: u32, arms: Vec<(u32, u32, u32)>, blocking: bool) -> Ins {
    let arms = arms
        .into_iter()
        .map(|(dir, chan, send)| SelectArm { dir, chan: v(chan), send: some(send) })
        .collect();
    def(Op::Select { dst: v(dst), arms, blocking }, dst, 0)
}

fn cap(n: i64) -> Vec<(u32, u32, ValueKind)> {
    vec![int_const(1, 0, n)]
}

fn at_alloc(n: u32) -> Loc {
    Loc { root: Root::Alloc(n), path: vec![] }
}

fn candidates_of(p: &Program, name: &str) -> Vec<Candidate> {
    candidates(p, p.func(fid(name)).unwrap())
}

fn escapes_in(p: &Program, name: &str, ch: u32) -> bool {
    escapes(p.func(fid(name)).unwrap(), v(ch))
}

/// make(chan); go t.G(ch); return
fn spawn_block() -> Vec<Blk> {
    vec![block(vec![make_chan(2, 1), go("t.G", vec![2]), ret(vec![])], vec![])]
}

/// t.F makes a channel of this capacity and hands it to t.G, which runs this code on it.
fn spawn_pkg(n: i64, g: Vec<Blk>) -> Program {
    untyped(vec![fun_aux("t.F", cap(n), spawn_block()), fun("t.G", vec![(1, 0)], g)])
}

fn send_code() -> Vec<Blk> {
    vec![block(vec![send(1, 1), ret(vec![])], vec![])]
}

// ---- Candidates ----

#[test]
fn direct_param_send_yields_send_candidate() {
    let p = spawn_pkg(0, send_code());
    let cands = candidates_of(&p, "t.F");
    assert_eq!(cands.len(), 1, "exactly one candidate: {cands:?}");
    assert_eq!(cands[0].kind, CandKind::Send);
    assert_eq!(cands[0].alloc_value, v(2));
    assert_eq!(cands[0].spawner_loc, at_alloc(2));
    assert_eq!(cands[0].callee, fid("t.G"));
}

/// t.F spawns t.G on a channel; t.G calls t.H on it; t.H sends.
fn hop_send_pkg(f_blocks: Vec<Blk>, n: i64) -> Program {
    untyped(vec![
        fun_aux("t.F", cap(n), f_blocks),
        fun(
            "t.G",
            vec![(1, 0)],
            vec![block(vec![call_static("t.H", 2, 0, vec![1]), ret(vec![])], vec![])],
        ),
        fun("t.H", vec![(1, 0)], send_code()),
    ])
}

#[test]
fn plain_call_hop_send_yields_hop_candidate() {
    let p = hop_send_pkg(spawn_block(), 0);
    let cands = candidates_of(&p, "t.F");
    assert_eq!(cands.len(), 1, "exactly one hop candidate: {cands:?}");
    let c = &cands[0];
    assert_eq!(c.kind, CandKind::Send);
    assert_eq!(c.callee, fid("t.G"));
    let hop = c.hop.as_ref().expect("hop candidate");
    assert_eq!(hop.helper, fid("t.H"));
    assert_eq!(hop.kind, HopKind::Call);
    assert_eq!((hop.call_block, hop.call_instr), (0, 0));
    assert_eq!((c.op_block, c.op_instr), (0, 0));
    assert_eq!(c.alloc_value, v(2));
    assert_eq!(c.spawner_loc, at_alloc(2));
}

#[test]
fn defer_static_hop_recv_yields_hop_candidate() {
    let p = untyped(vec![
        fun_aux("t.F", cap(0), spawn_block()),
        fun(
            "t.G",
            vec![(1, 0)],
            vec![block(
                vec![
                    ins(Op::Defer { callee: Callee::Static(fid("t.H")), args: vs(vec![1]) }),
                    ret(vec![]),
                ],
                vec![],
            )],
        ),
        fun("t.H", vec![(1, 0)], vec![block(vec![recv(2, 1), ret(vec![])], vec![])]),
    ]);
    let cands = candidates_of(&p, "t.F");
    assert_eq!(cands.len(), 1, "one defer hop candidate: {cands:?}");
    assert_eq!(cands[0].kind, CandKind::Recv);
    assert_eq!(cands[0].hop.as_ref().map(|h| h.kind), Some(HopKind::Defer));
    assert_eq!(cands[0].alloc_value, v(2));
}

#[test]
fn recursive_callee_yields_single_direct_candidate() {
    let p = spawn_pkg(
        0,
        vec![block(vec![call_static("t.G", 2, 0, vec![1]), send(1, 1), ret(vec![])], vec![])],
    );
    let cands = candidates_of(&p, "t.F");
    assert_eq!(cands.len(), 1, "one direct candidate only: {cands:?}");
    assert!(cands[0].hop.is_none(), "recursive site must not anchor");
}

#[test]
fn depth_two_helper_yields_no_candidate() {
    let calls = |callee: &'static str| {
        vec![block(vec![call_static(callee, 2, 0, vec![1]), ret(vec![])], vec![])]
    };
    let p = untyped(vec![
        fun_aux("t.F", cap(0), spawn_block()),
        fun("t.G", vec![(1, 0)], calls("t.M")),
        fun("t.M", vec![(1, 0)], calls("t.H")),
        fun("t.H", vec![(1, 0)], send_code()),
    ]);
    assert!(candidates_of(&p, "t.F").is_empty(), "two hops down is no candidate");
}

#[test]
fn select_in_helper_all_arms_yield_select_hop_candidate() {
    let p = untyped(vec![
        fun_aux(
            "t.F",
            cap(0),
            vec![block(
                vec![make_chan(2, 1), make_chan(3, 1), go("t.G", vec![2, 3]), ret(vec![])],
                vec![],
            )],
        ),
        fun(
            "t.G",
            vec![(1, 0), (2, 0)],
            vec![block(vec![call_static("t.H", 3, 0, vec![1, 2]), ret(vec![])], vec![])],
        ),
        fun(
            "t.H",
            vec![(1, 0), (2, 0)],
            vec![block(
                vec![select(3, vec![(2, 1, 0), (1, 2, 2)], true), ret(vec![])],
                vec![],
            )],
        ),
    ]);
    let cands = candidates_of(&p, "t.F");
    assert_eq!(cands.len(), 1, "one select hop candidate: {cands:?}");
    assert_eq!(cands[0].kind, CandKind::Select);
    assert!(cands[0].hop.is_some());
    assert_eq!(cands[0].arm_locs.len(), 2);
    assert!(cands[0].arm_locs.iter().all(|(_, l)| matches!(l.root, Root::Alloc(_))));
}

/// t.F runs this code, which may make a closure of t.F$1; t.F$1 has these free variables.
fn closure_pkg(f: Vec<Ins>, free: Vec<u32>, g: Vec<Ins>) -> Program {
    untyped(vec![
        fun("t.F", vec![], vec![block(f, vec![])]),
        fun_free("t.F$1", free, vec![block(g, vec![])]),
    ])
}

#[test]
fn closure_free_var_recv_yields_recv_candidate() {
    let p = closure_pkg(
        vec![
            make_chan(2, 1),
            make_closure(3, "t.F$1", vec![2]),
            go("t.F$1", vec![]),
            ret(vec![]),
        ],
        vec![1],
        vec![recv(2, 1), ret(vec![])],
    );
    let cands = candidates_of(&p, "t.F");
    assert_eq!(cands.len(), 1, "exactly one candidate: {cands:?}");
    assert_eq!(cands[0].kind, CandKind::Recv);
    assert_eq!(cands[0].alloc_value, v(2));
    assert_eq!(cands[0].spawner_loc, at_alloc(2));
}

#[test]
fn param_rooted_channel_yields_no_candidate() {
    let p = untyped(vec![
        fun("t.F", vec![(1, 0)], vec![block(vec![go("t.G", vec![1]), ret(vec![])], vec![])]),
        fun("t.G", vec![(1, 0)], vec![block(vec![recv(2, 1), ret(vec![])], vec![])]),
    ]);
    assert!(candidates_of(&p, "t.F").is_empty(), "param-rooted channel is no candidate");
}

#[test]
fn dynamic_go_callee_yields_no_candidate() {
    let p = untyped(vec![fun_aux(
        "t.F",
        cap(0),
        vec![block(
            vec![
                make_chan(2, 1),
                ins(Op::Go { callee: Callee::Dynamic { value: v(0) }, args: vec![] }),
                ret(vec![]),
            ],
            vec![],
        )],
    )]);
    assert!(candidates_of(&p, "t.F").is_empty());
}

#[test]
fn bodyless_go_callee_yields_no_candidate() {
    let p = untyped(vec![fun_aux(
        "t.F",
        cap(0),
        vec![block(vec![make_chan(2, 1), go("ext.NoBody", vec![2]), ret(vec![])], vec![])],
    )]);
    assert!(candidates_of(&p, "t.F").is_empty());
}

#[test]
fn nonblocking_select_yields_no_candidate() {
    let p = spawn_pkg(
        0,
        vec![block(vec![select(2, vec![(1, 1, 1)], false), ret(vec![])], vec![])],
    );
    assert!(candidates_of(&p, "t.F").is_empty());
}

#[test]
fn blocking_select_all_alloc_arms_yields_select_candidate() {
    let p = closure_pkg(
        vec![
            make_chan(2, 1),
            make_chan(3, 1),
            make_closure(4, "t.F$1", vec![2, 3]),
            go("t.F$1", vec![]),
            ret(vec![]),
        ],
        vec![1, 2],
        vec![select(3, vec![(2, 1, 0), (2, 2, 0)], true), ret(vec![])],
    );
    let cands = candidates_of(&p, "t.F");
    assert_eq!(cands.len(), 1, "exactly one candidate: {cands:?}");
    assert_eq!(cands[0].kind, CandKind::Select);
    assert_eq!(cands[0].arm_locs.len(), 2);
    assert_eq!(cands[0].spawner_loc, at_alloc(2));
}

#[test]
fn deep_composed_path_degrades_to_unknown_and_yields_no_candidate() {
    let p = untyped(vec![
        fun_aux(
            "t.F",
            cap(0),
            vec![block(
                vec![
                    alloc_cell(2),
                    field_addr_on(3, 2),
                    field_addr_on(4, 3),
                    go("t.W", vec![4]),
                    ret(vec![]),
                ],
                vec![],
            )],
        ),
        fun(
            "t.W",
            vec![(1, 0)],
            vec![block(vec![field_addr_on(2, 1), recv(3, 2), ret(vec![])], vec![])],
        ),
    ]);
    assert!(candidates_of(&p, "t.F").is_empty(), "a path of three steps is unknown");
}

#[test]
fn closure_capture_via_cell_yields_recv_candidate_at_cell_alloc() {
    let p = closure_pkg(
        vec![
            alloc_cell(2),
            make_chan(3, 1),
            store(2, 3),
            make_closure(4, "t.F$1", vec![2]),
            go("t.F$1", vec![]),
            ret(vec![]),
        ],
        vec![1],
        vec![load(2, 1), recv(3, 2), ret(vec![])],
    );
    let cands = candidates_of(&p, "t.F");
    assert_eq!(cands.len(), 1, "exactly one candidate: {cands:?}");
    assert_eq!(cands[0].kind, CandKind::Recv);
    assert_eq!(cands[0].alloc_value, v(2), "the cell, not the channel's register");
    assert_eq!(cands[0].spawner_loc, at_alloc(2));
}

// ---- Escapes ----

fn one_block(code: Vec<Ins>) -> Program {
    untyped(vec![fun_aux("t.F", cap(0), vec![block(code, vec![])])])
}

#[test]
fn return_of_channel_escapes() {
    let p = one_block(vec![make_chan(2, 1), ret(vec![2])]);
    assert!(escapes_in(&p, "t.F", 2), "returned channel must escape");
}

#[test]
fn plain_chan_op_uses_do_not_escape() {
    let p = one_block(vec![
        make_chan(2, 1),
        send(2, 1),
        recv(3, 2),
        ins(Op::CloseChan { chan: v(2) }),
        ret(vec![]),
    ]);
    assert!(!escapes_in(&p, "t.F", 2), "plain channel-op uses must not escape");
}

#[test]
fn store_to_foreign_addr_escapes() {
    let p = one_block(vec![make_chan(2, 1), alloc_cell(3), store(3, 2), ret(vec![])]);
    assert!(escapes_in(&p, "t.F", 2), "storing into a foreign cell must escape");
}

#[test]
fn store_into_own_cell_does_not_escape_and_content_aliases() {
    let p = one_block(vec![alloc_cell(2), make_chan(3, 1), store(2, 3), ret(vec![])]);
    assert!(!escapes_in(&p, "t.F", 2), "storing into its own cell must not escape");
}

#[test]
fn plain_call_arg_escapes() {
    let p = one_block(vec![make_chan(2, 1), call_static("t.G", 0, 0, vec![2]), ret(vec![])]);
    assert!(escapes_in(&p, "t.F", 2), "plain call args escape");
}

#[test]
fn static_go_arg_does_not_escape() {
    let p = one_block(vec![make_chan(2, 1), go("t.G", vec![2]), ret(vec![])]);
    assert!(!escapes_in(&p, "t.F", 2), "a static go argument must not escape");
}

#[test]
fn closure_value_returned_escapes() {
    let p = one_block(vec![make_chan(2, 1), make_closure(3, "t.F$1", vec![2]), ret(vec![3])]);
    assert!(escapes_in(&p, "t.F", 2), "a returned closure over the channel must escape");
}

#[test]
fn make_interface_escapes() {
    let boxed = def(Op::MakeInterface { dst: v(3), src: v(2) }, 3, 0);
    let p = one_block(vec![make_chan(2, 1), boxed, ret(vec![])]);
    assert!(escapes_in(&p, "t.F", 2), "a boxed channel must escape");
}

#[test]
fn closure_alias_laundered_through_assign_and_returned_escapes() {
    let p = one_block(vec![
        make_chan(2, 1),
        make_closure(3, "t.F$1", vec![2]),
        assign(4, 0, 3),
        ret(vec![4]),
    ]);
    assert!(escapes_in(&p, "t.F", 2), "a renamed closure must still escape");
}

// ---- Counterparts ----

fn env_with(loc: Loc, ops: &[ChanOp]) -> Effects {
    let mut e = Effects::empty();
    add_ops(&mut e, loc, ops);
    e
}

fn add_ops(e: &mut Effects, loc: Loc, ops: &[ChanOp]) {
    for op in ops {
        add_at(&mut e.chan_ops, Loc { root: root_of(&loc), path: loc.path.clone() }, ChanOps::of(*op));
    }
}

fn root_of(loc: &Loc) -> Root {
    match loc.root {
        Root::Alloc(n) => Root::Alloc(n),
        Root::Unknown => Root::Unknown,
        _ => unreachable!(),
    }
}

#[test]
fn send_candidate_suppressed_by_recv_at_same_loc() {
    let env = env_with(at_alloc(2), &[ChanOp::Send, ChanOp::Recv]);
    assert!(has_counterpart(&env, &at_alloc(2), CandKind::Send));
}

#[test]
fn send_candidate_not_suppressed_by_sibling_send() {
    let env = env_with(at_alloc(2), &[ChanOp::Send, ChanOp::Make]);
    assert!(!has_counterpart(&env, &at_alloc(2), CandKind::Send));
}

#[test]
fn send_candidate_suppressed_by_any_unknown_loc_unblocker() {
    let env = env_with(Loc::unknown(), &[ChanOp::Recv]);
    assert!(has_counterpart(&env, &at_alloc(2), CandKind::Send));
}

#[test]
fn recv_candidate_suppressed_by_close() {
    let env = env_with(at_alloc(2), &[ChanOp::Close]);
    assert!(has_counterpart(&env, &at_alloc(2), CandKind::Recv));
}

#[test]
fn recv_candidate_unsuppressed_by_recv() {
    let env = env_with(at_alloc(2), &[ChanOp::Recv]);
    assert!(!has_counterpart(&env, &at_alloc(2), CandKind::Recv));
}

#[test]
fn has_counterpart_select_kind_defaults_to_true() {
    assert!(has_counterpart(&Effects::empty(), &at_alloc(2), CandKind::Select));
}

#[test]
fn select_arm_dispatch_suppressed_if_any_arm_matched() {
    let arm_locs: Vec<(u32, Loc)> = vec![(1, at_alloc(2)), (2, at_alloc(3))];
    let dispatch =
        |env: &Effects| arm_locs.iter().any(|(dir, loc)| arm_has_counterpart(env, loc, *dir));
    let env = env_with(at_alloc(2), &[ChanOp::Recv]);
    assert!(dispatch(&env), "the send arm can pair via Recv");
    assert!(!dispatch(&Effects::empty()), "an empty environment leaves no arm able to pair");
}

#[test]
fn select_arm_not_suppressed_by_its_own_select_at_arm_locs() {
    let mut env = env_with(at_alloc(2), &[ChanOp::Select, ChanOp::Make]);
    add_ops(&mut env, at_alloc(3), &[ChanOp::Select, ChanOp::Make]);
    assert!(!arm_has_counterpart(&env, &at_alloc(2), 1), "its own select unblocks no send arm");
    assert!(!arm_has_counterpart(&env, &at_alloc(3), 2), "its own select unblocks no recv arm");
}

#[test]
fn select_arm_suppressed_by_unknown_loc_select() {
    let env = env_with(Loc::unknown(), &[ChanOp::Select]);
    assert!(arm_has_counterpart(&env, &at_alloc(2), 1));
    assert!(arm_has_counterpart(&env, &at_alloc(2), 2), "same for a recv arm");
}

// ---- Capacities ----

fn class_of_only_candidate(p: &Program) -> CapClass {
    let f = p.func(fid("t.F")).unwrap();
    let cands = candidates(p, f);
    assert_eq!(cands.len(), 1, "exactly one candidate: {cands:?}");
    cap_class(p, f, &cands[0])
}

#[test]
fn cap_class_unbuffered_from_const_zero() {
    assert_eq!(class_of_only_candidate(&spawn_pkg(0, send_code())), CapClass::Unbuffered);
}

#[test]
fn cap_class_buffered_const_acyclic_send() {
    assert_eq!(class_of_only_candidate(&spawn_pkg(3, send_code())), CapClass::BufferedConst(3));
}

#[test]
fn cap_class_silent_for_nonconst_cap() {
    let p = untyped(vec![
        fun("t.F", vec![(1, 0)], spawn_block()),
        fun("t.G", vec![(1, 0)], send_code()),
    ]);
    assert_eq!(class_of_only_candidate(&p), CapClass::Silent);
}

#[test]
fn cap_class_silent_for_cyclic_buffered_send() {
    let p = spawn_pkg(3, vec![block(vec![send(1, 1), ret(vec![])], vec![0])]);
    assert_eq!(class_of_only_candidate(&p), CapClass::Silent);
}

/// A send on what the cell 4 of t.F holds.
fn cell_candidate() -> Candidate {
    Candidate {
        go_block: 0,
        go_pos: None,
        callee: fid("t.G"),
        op_block: 0,
        op_instr: 0,
        kind: CandKind::Send,
        callee_loc: Loc::unknown(),
        alloc_value: v(4),
        spawner_loc: at_alloc(4),
        arm_locs: vec![],
        hop: None,
    }
}

fn cell_class(stores: Vec<Ins>) -> CapClass {
    let mut code = vec![alloc_cell(4), make_chan(2, 1)];
    code.extend(stores);
    code.push(ret(vec![]));
    let p = untyped(vec![
        fun_aux("t.F", cap(3), vec![block(code, vec![])]),
        fun("t.G", vec![], vec![block(vec![ret(vec![])], vec![])]),
    ]);
    cap_class(&p, p.func(fid("t.F")).unwrap(), &cell_candidate())
}

#[test]
fn cap_class_cell_form_single_store_resolves() {
    assert_eq!(cell_class(vec![store(4, 2)]), CapClass::BufferedConst(3));
}

#[test]
fn cap_class_cell_form_two_stores_is_silent() {
    assert_eq!(cell_class(vec![store(4, 2), store(4, 5)]), CapClass::Silent);
}

#[test]
fn buffered_recv_is_reachability_only() {
    let p = spawn_pkg(3, vec![block(vec![recv(2, 1), ret(vec![])], vec![])]);
    assert_eq!(class_of_only_candidate(&p), CapClass::Unbuffered);
}

// ---- Queries ----

#[test]
fn prefixed_renames_consts_and_free_vars() {
    let q = Query {
        consts: vec![("g0".to_string(), Sort::Bool)],
        asserts: vec![Term::var("g0", Sort::Bool)],
    };
    let pq = prefixed(&q, "s_").expect("pure rename cannot fail");
    assert_eq!(pq.consts, vec![("s_g0".to_string(), Sort::Bool)]);
    let fv = pq.asserts[0].free_vars();
    assert!(fv.get(&"s_g0".to_string()).is_some() && fv.get(&"g0".to_string()).is_none());
}

// ---- Findings ----

/// The findings of the leak checker alone, with every query answered.
fn run_leak(p: &Program) -> Vec<Finding> {
    let (graph, sccs) = calls(p);
    assert!(sccs.check(p.funcs.len()));
    let cfg = EngineConfig::default();
    let checkers = vec![LeakChecker];
    let found: Vec<_> = sccs.schedule.iter().map(|_| None).collect();
    let mut report = Answers::new();
    loop {
        let a = analyze_full(p, &graph, &sccs, &cfg, &checkers, &found, &Answers::new(), &report);
        assert!(a.asked_infer.is_empty(), "the leak checker infers nothing");
        let open = report.open(&a.asked_findings);
        if open.is_empty() {
            assert!(a.diagnostics.is_empty(), "{:?}", a.diagnostics);
            return a.findings;
        }
        let t = SummaryTable { entries: a.summaries.iter().map(|s| Some(s.dup())).collect() };
        for i in 0..p.funcs.len() {
            for ob in LeakChecker.obligations(p, FuncId(i as u32), &t) {
                report.set(ob.query.canonical_text(), solve(&ob.query));
            }
        }
    }
}

#[test]
fn leak_end_to_end_reports_via_z3() {
    let findings = run_leak(&spawn_pkg(0, send_code()));
    assert_eq!(findings.len(), 1, "exactly one finding: {findings:?}");
    assert_eq!(findings[0].checker, "goroutine-leak");
    assert_eq!(findings[0].tag, "chan-send-leak");
    assert_eq!(findings[0].severity, Severity::Error);
}

#[test]
fn leak_suppressed_when_recv_follows_spawn() {
    let p = untyped(vec![
        fun_aux(
            "t.F",
            cap(0),
            vec![block(
                vec![make_chan(2, 1), go("t.G", vec![2]), recv(3, 2), ret(vec![])],
                vec![],
            )],
        ),
        fun("t.G", vec![(1, 0)], send_code()),
    ]);
    let findings = run_leak(&p);
    assert!(findings.is_empty(), "a receive unblocks the send: {findings:?}");
}

#[test]
fn buffered_send_reports_only_past_capacity() {
    let p = spawn_pkg(
        3,
        vec![block(vec![send(1, 1), send(1, 1), send(1, 1), send(1, 1), ret(vec![])], vec![])],
    );
    let findings = run_leak(&p);
    assert_eq!(findings.len(), 1, "only the send past capacity blocks: {findings:?}");
    assert_eq!(findings[0].tag, "chan-send-leak");
}

#[test]
fn identical_blocking_ops_each_report() {
    let p = spawn_pkg(0, vec![block(vec![send(1, 1), send(1, 1), ret(vec![])], vec![])]);
    let findings = run_leak(&p);
    assert_eq!(findings.len(), 2, "each blocking op is its own leak site: {findings:?}");
    assert!(findings.iter().all(|f| f.tag == "chan-send-leak"), "{findings:?}");
}

/// t.G sends in block 1 and in block 2; block 1 lies on every path, or on one of two.
fn ancestor_send_pkg(n: i64, conditional: bool) -> Program {
    let first = if conditional {
        block(vec![branch_on(2)], vec![1, 2])
    } else {
        block(vec![jump()], vec![1])
    };
    untyped(vec![
        fun_aux("t.F", cap(n), spawn_block()),
        fun(
            "t.G",
            vec![(1, 0), (2, 0)],
            vec![
                first,
                block(vec![send(1, 1)], vec![2]),
                block(vec![send(1, 1), ret(vec![])], vec![]),
            ],
        ),
    ])
}

#[test]
fn buffered_send_counts_guarded_ancestor_block_sends() {
    let findings = run_leak(&ancestor_send_pkg(1, true));
    assert_eq!(findings.len(), 1, "the earlier send fills the buffer: {findings:?}");
    assert_eq!(findings[0].tag, "chan-send-leak");
}

#[test]
fn buffered_send_dominating_ancestor_send_is_forced() {
    let findings = run_leak(&ancestor_send_pkg(1, false));
    assert_eq!(findings.len(), 1, "a dominating send always counts: {findings:?}");
    assert_eq!(findings[0].tag, "chan-send-leak");
}

#[test]
fn buffered_send_below_capacity_with_ancestors_stays_silent() {
    let findings = run_leak(&ancestor_send_pkg(2, true));
    assert!(findings.is_empty(), "one earlier send cannot fill two slots: {findings:?}");
}

#[test]
fn select_all_blocked_reports_via_z3() {
    let p = untyped(vec![
        fun_aux(
            "t.F",
            cap(0),
            vec![block(
                vec![
                    make_chan(3, 1),
                    make_chan(4, 1),
                    make_closure(5, "t.F$1", vec![3, 4]),
                    go("t.F$1", vec![]),
                    ret(vec![]),
                ],
                vec![],
            )],
        ),
        fun_free(
            "t.F$1",
            vec![1, 2],
            vec![block(vec![select(3, vec![(2, 1, 0), (2, 2, 0)], true), ret(vec![])], vec![])],
        ),
    ]);
    let findings = run_leak(&p);
    assert_eq!(findings.len(), 1, "exactly one finding: {findings:?}");
    assert_eq!(findings[0].checker, "goroutine-leak");
    assert_eq!(findings[0].tag, "chan-select-leak");
    assert_eq!(findings[0].severity, Severity::Error);
}

#[test]
fn a_helper_that_blocks_raises_no_obligation() {
    let p = hop_send_pkg(spawn_block(), 0);
    assert_eq!(candidates_of(&p, "t.F").len(), 1);
    assert!(run_leak(&p).is_empty());
}

#[test]
fn ignore_name_is_valid() {
    assert!(default_checkers().iter().any(|c| c.name() == "goroutine-leak"));
}

// ---- Programs ----

fn fid(name: &str) -> FuncId {
    FuncId(NAMES.iter().position(|n| *n == name).unwrap() as u32)
}

/// An operation with the id and the type of the value that it defines, if any.
struct Ins {
    op: Op,
    dst: u32,
    ty: u32,
    line: u32,
}

fn ins(op: Op) -> Ins {
    Ins { op, dst: 0, ty: 0, line: 0 }
}

fn def(op: Op, dst: u32, ty: u32) -> Ins {
    Ins { op, dst, ty, line: 0 }
}

/// The operation at this line of "t.go".
fn at(line: u32, i: Ins) -> Ins {
    Ins { line, ..i }
}

struct Blk {
    code: Vec<Ins>,
    preds: Vec<u32>,
    succs: Vec<u32>,
}

fn block(code: Vec<Ins>, succs: Vec<u32>) -> Blk {
    Blk { code, preds: vec![], succs }
}

fn joined(code: Vec<Ins>, preds: Vec<u32>, succs: Vec<u32>) -> Blk {
    Blk { code, preds, succs }
}

/// A function: its parameters with their types, its free variables, its other values that no
/// operation defines, and its blocks.
struct Fun {
    name: &'static str,
    params: Vec<(u32, u32)>,
    free: Vec<u32>,
    aux: Vec<(u32, u32, ValueKind)>,
    blocks: Vec<Blk>,
    sig: u32,
}

fn fun(name: &'static str, params: Vec<(u32, u32)>, blocks: Vec<Blk>) -> Fun {
    Fun { name, params, free: vec![], aux: vec![], blocks, sig: 0 }
}

fn fun_aux(name: &'static str, aux: Vec<(u32, u32, ValueKind)>, blocks: Vec<Blk>) -> Fun {
    Fun { name, params: vec![], free: vec![], aux, blocks, sig: 0 }
}

fn fun_free(name: &'static str, free: Vec<u32>, blocks: Vec<Blk>) -> Fun {
    Fun { name, params: vec![], free, aux: vec![], blocks, sig: 0 }
}

fn body(f: Fun) -> Function {
    let last = f.blocks.iter().flat_map(|b| &b.code).map(|i| i.dst).max().unwrap_or(0);
    let mut values: Vec<ValueInfo> = (0..last.max(15) + 1)
        .map(|_| ValueInfo { ty: TypeId(0), kind: ValueKind::Opaque })
        .collect();
    for (id, ty) in &f.params {
        values[*id as usize] = ValueInfo { ty: TypeId(*ty), kind: ValueKind::Param };
    }
    for id in &f.free {
        values[*id as usize].kind = ValueKind::FreeVar;
    }
    for (id, ty, kind) in f.aux {
        values[id as usize] = ValueInfo { ty: TypeId(ty), kind };
    }
    let mut blocks = Vec::new();
    for b in f.blocks {
        let mut instrs = Vec::new();
        for i in b.code {
            if i.dst != 0 {
                values[i.dst as usize] =
                    ValueInfo { ty: TypeId(i.ty), kind: ValueKind::Register };
            }
            let pos = if i.line == 0 {
                None
            } else {
                Some(Pos { file: "t.go".to_string(), line: i.line, col: 1 })
            };
            instrs.push(Instr { op: i.op, pos });
        }
        blocks.push(Block { instrs, succs: b.succs, preds: b.preds });
    }
    Function {
        params: f.params.iter().map(|(id, _)| ValueId(*id)).collect(),
        free_vars: f.free.iter().map(|id| ValueId(*id)).collect(),
        sig: TypeId(f.sig),
        values,
        blocks,
    }
}

fn entry(repr: &str, kind: TypeKind) -> TypeEntry {
    TypeEntry { repr: repr.to_string(), kind }
}

fn basic(name: &str) -> TypeEntry {
    entry(name, TypeKind::Basic { name: name.to_string() })
}

/// A program with the given types, of which the first has id 1, and functions.
fn program(types: Vec<TypeEntry>, funs: Vec<Fun>) -> Program {
    let mut entries = vec![entry("", TypeKind::Unknown)];
    entries.extend(types);
    let mut funcs: Vec<FuncDecl> = NAMES
        .iter()
        .enumerate()
        .map(|(i, n)| FuncDecl { name: n.to_string(), body: None, ir_hash: [i as u8; 32] })
        .collect();
    for f in funs {
        let i = fid(f.name).0 as usize;
        funcs[i].body = Some(body(f));
    }
    Program { funcs, types: TypeTable { entries } }
}

/// Types: 1 is `T`, 2 is `*T`, 3 is `bool`.
fn with_ptr_types(funs: Vec<Fun>) -> Program {
    program(
        vec![
            entry("T", TypeKind::Struct),
            entry("*T", TypeKind::Pointer { elem: TypeId(1) }),
            basic("bool"),
        ],
        funs,
    )
}

// ---- Operations ----

fn v(i: u32) -> ValueId {
    ValueId(i)
}

fn vs(ids: Vec<u32>) -> Vec<ValueId> {
    ids.into_iter().map(ValueId).collect()
}

fn some(id: u32) -> Option<ValueId> {
    if id == 0 { None } else { Some(ValueId(id)) }
}

fn ret(vals: Vec<u32>) -> Ins {
    ins(Op::Return { vals: vs(vals) })
}

fn jump() -> Ins {
    ins(Op::Jump)
}

fn branch_on(cond: u32) -> Ins {
    ins(Op::Branch { cond: v(cond) })
}

fn field_addr_on(dst: u32, base: u32) -> Ins {
    def(Op::FieldAddr { dst: v(dst), base: v(base), field: 0 }, dst, 0)
}

fn call_static(callee: &str, dst: u32, ty: u32, args: Vec<u32>) -> Ins {
    def(Op::Call { dst: some(dst), callee: Callee::Static(fid(callee)), args: vs(args) }, dst, ty)
}

fn call_builtin(name: &str, dst: u32, ty: u32, args: Vec<u32>) -> Ins {
    let callee = Callee::Builtin(name.to_string());
    def(Op::Call { dst: some(dst), callee, args: vs(args) }, dst, ty)
}

fn binop(dst: u32, ty: u32, kind: BinOpKind, lhs: u32, rhs: u32) -> Ins {
    def(Op::BinOp { dst: v(dst), kind, lhs: v(lhs), rhs: v(rhs) }, dst, ty)
}

fn assign(dst: u32, ty: u32, src: u32) -> Ins {
    def(Op::Assign { dst: v(dst), src: v(src) }, dst, ty)
}

fn nil(id: u32) -> (u32, u32, ValueKind) {
    (id, 2, ValueKind::Const(ConstVal::Nil))
}

fn int_const(id: u32, ty: u32, n: i64) -> (u32, u32, ValueKind) {
    (id, ty, ValueKind::Const(ConstVal::Int(n)))
}

// ---- Checkers ----

/// Summaries that say nothing.
fn no_summaries() -> SummaryTable {
    SummaryTable { entries: NAMES.iter().map(|_| Some(Summary::default())).collect() }
}

fn required(c: &impl Checker, p: &Program, f: FuncId, t: &SummaryTable) -> Vec<Clause> {
    let verdicts = c.requires_queries(p, f, t).iter().map(|q| solve(q).result()).collect();
    c.infer_requires(p, f, t, &verdicts)
}

// ---- Call graphs ----

fn static_calls(b: &Function) -> Vec<FuncId> {
    let mut out: Vec<FuncId> = Vec::new();
    for i in b.blocks.iter().flat_map(|b| &b.instrs) {
        if let Op::Call { callee: Callee::Static(c), .. }
        | Op::Go { callee: Callee::Static(c), .. }
        | Op::Defer { callee: Callee::Static(c), .. } = &i.op
        {
            if !out.contains(c) {
                out.push(*c);
            }
        }
    }
    out
}

/// The static calls of each function and the strongly connected components, callees first.
fn calls(p: &Program) -> (CallGraph, Sccs) {
    let n = p.funcs.len();
    let edges: Vec<Vec<FuncId>> = p
        .funcs
        .iter()
        .map(|d| match &d.body {
            Some(b) => static_calls(b),
            None => vec![],
        })
        .collect();
    let mut reach = vec![vec![false; n]; n];
    for i in 0..n {
        let mut todo: Vec<usize> = vec![i];
        while let Some(x) = todo.pop() {
            for c in &edges[x] {
                let c = c.0 as usize;
                if !reach[i][c] {
                    reach[i][c] = true;
                    todo.push(c);
                }
            }
        }
    }
    let same = |a: usize, b: usize| a == b || (reach[a][b] && reach[b][a]);
    let mut schedule: Vec<Vec<FuncId>> = Vec::new();
    let mut place: Vec<Option<usize>> = vec![None; n];
    while let Some(next) = (0..n).find(|i| {
        place[*i].is_none() && (0..n).all(|c| !reach[*i][c] || same(*i, c) || place[c].is_some())
    }) {
        let members: Vec<usize> = (0..n).filter(|j| same(next, *j)).collect();
        for m in &members {
            place[*m] = Some(schedule.len());
        }
        schedule.push(members.into_iter().map(|m| FuncId(m as u32)).collect());
    }
    let callee_sccs = schedule
        .iter()
        .enumerate()
        .map(|(k, members)| {
            let mut out: Vec<usize> = Vec::new();
            for c in members.iter().flat_map(|m| &edges[m.0 as usize]) {
                let j = place[c.0 as usize].unwrap();
                if j != k && !out.contains(&j) {
                    out.push(j);
                }
            }
            out
        })
        .collect();
    (CallGraph { edges }, Sccs { schedule, callee_sccs })
}

// ---- A small model finder ----
//
// It tries a handful of values for each constant that is not defined by an equality. A model
// that it finds is one; that it finds none only means that none is among the values tried,
// which are chosen so that the queries below are decided.

#[derive(Debug, Clone, PartialEq, Eq)]
enum Val {
    Bool(bool),
    Bv(u32, u128),
    Ptr(u64),
    Slice(u128, u128),
}

type Env = BTreeMap<String, Val>;

fn mask(w: u32) -> u128 {
    if w >= 128 { u128::MAX } else { (1u128 << w) - 1 }
}

fn signed(w: u32, x: u128) -> i128 {
    if w < 128 && x >> (w - 1) == 1 { x as i128 - (1i128 << w) } else { x as i128 }
}

fn bin(op: BvBinOp, w: u32, a: u128, b: u128) -> u128 {
    let (sa, sb) = (signed(w, a), signed(w, b));
    let r = match op {
        BvBinOp::Add => a.wrapping_add(b),
        BvBinOp::Sub => a.wrapping_sub(b),
        BvBinOp::Mul => a.wrapping_mul(b),
        BvBinOp::And => a & b,
        BvBinOp::Or => a | b,
        BvBinOp::Xor => a ^ b,
        BvBinOp::Shl => {
            if b >= w as u128 { 0 } else { a << b }
        }
        BvBinOp::Lshr => {
            if b >= w as u128 { 0 } else { a >> b }
        }
        BvBinOp::Ashr => {
            let n = if b >= w as u128 { w - 1 } else { b as u32 };
            (sa >> n) as u128
        }
        BvBinOp::Udiv => {
            if b == 0 { mask(w) } else { a / b }
        }
        BvBinOp::Urem => {
            if b == 0 { a } else { a % b }
        }
        BvBinOp::Sdiv => {
            if b == 0 {
                if sa < 0 { 1 } else { mask(w) }
            } else {
                sa.wrapping_div(sb) as u128
            }
        }
        BvBinOp::Srem => {
            if b == 0 { a } else { sa.wrapping_rem(sb) as u128 }
        }
    };
    r & mask(w)
}

fn eval(t: &Term, env: &Env) -> Option<Val> {
    Some(match t {
        Term::Var(n, _) => env.get(n)?.clone(),
        Term::BoolLit(b) => Val::Bool(*b),
        Term::BvLit(w, v) => Val::Bv(*w, *v & mask(*w)),
        Term::Eq(a, b) => Val::Bool(eval(a, env)? == eval(b, env)?),
        Term::Not(a) => match eval(a, env)? {
            Val::Bool(b) => Val::Bool(!b),
            _ => return None,
        },
        Term::And(v) => {
            let mut open = false;
            for x in v {
                match eval(x, env) {
                    Some(Val::Bool(false)) => return Some(Val::Bool(false)),
                    Some(_) => {}
                    None => open = true,
                }
            }
            if open {
                return None;
            }
            Val::Bool(true)
        }
        Term::Or(v) => {
            let mut open = false;
            for x in v {
                match eval(x, env) {
                    Some(Val::Bool(true)) => return Some(Val::Bool(true)),
                    Some(_) => {}
                    None => open = true,
                }
            }
            if open {
                return None;
            }
            Val::Bool(false)
        }
        Term::Ite(c, a, b) => match eval(c, env)? {
            Val::Bool(true) => eval(a, env)?,
            _ => eval(b, env)?,
        },
        Term::BvBin(op, a, b) => match (eval(a, env)?, eval(b, env)?) {
            (Val::Bv(w, x), Val::Bv(_, y)) => Val::Bv(w, bin(*op, w, x, y)),
            _ => return None,
        },
        Term::BvCmp(op, a, b) => match (eval(a, env)?, eval(b, env)?) {
            (Val::Bv(w, x), Val::Bv(_, y)) => Val::Bool(match op {
                BvCmpOp::Ult => x < y,
                BvCmpOp::Ule => x <= y,
                BvCmpOp::Slt => signed(w, x) < signed(w, y),
                BvCmpOp::Sle => signed(w, x) <= signed(w, y),
            }),
            _ => return None,
        },
        Term::PtrNil => Val::Ptr(0),
        Term::PtrIsNil(a) => match eval(a, env)? {
            Val::Ptr(x) => Val::Bool(x == 0),
            _ => return None,
        },
        Term::SeqVal(a, b) => match (eval(a, env)?, eval(b, env)?) {
            (Val::Bv(_, x), Val::Bv(_, y)) => Val::Slice(x, y),
            _ => return None,
        },
        Term::SeqLen(a) => match eval(a, env)? {
            Val::Slice(x, _) => Val::Bv(64, x),
            _ => return None,
        },
        Term::SeqCap(a) => match eval(a, env)? {
            Val::Slice(_, y) => Val::Bv(64, y),
            _ => return None,
        },
    })
}

fn literals(t: &Term, out: &mut BTreeSet<u128>) {
    match t {
        Term::BvLit(_, v) => {
            out.insert(*v);
        }
        Term::Var(_, _) | Term::BoolLit(_) | Term::PtrNil => {}
        Term::Not(a) | Term::PtrIsNil(a) | Term::SeqLen(a) | Term::SeqCap(a) => literals(a, out),
        Term::Eq(a, b) | Term::BvBin(_, a, b) | Term::BvCmp(_, a, b) | Term::SeqVal(a, b) => {
            literals(a, out);
            literals(b, out);
        }
        Term::Ite(c, a, b) => {
            literals(c, out);
            literals(a, out);
            literals(b, out);
        }
        Term::And(v) | Term::Or(v) => {
            for x in v {
                literals(x, out);
            }
        }
    }
}

fn flatten<'a>(t: &'a Term, out: &mut Vec<&'a Term>) {
    match t {
        Term::And(v) => {
            for x in v {
                flatten(x, out);
            }
        }
        _ => out.push(t),
    }
}

/// Assigns what the assertions define. `None` where one of them fails.
fn propagate(asserts: &[&Term], env: &mut Env) -> Option<()> {
    loop {
        let mut progress = false;
        for t in asserts {
            match eval(t, env) {
                Some(Val::Bool(true)) => continue,
                Some(_) => return None,
                None => {}
            }
            match t {
                Term::Eq(a, b) => {
                    for (x, y) in [(a, b), (b, a)] {
                        if let Term::Var(n, _) = &**x {
                            if !env.contains_key(n) {
                                if let Some(v) = eval(y, env) {
                                    env.insert(n.clone(), v);
                                    progress = true;
                                    break;
                                }
                            }
                        }
                    }
                }
                Term::Var(n, _) => {
                    env.insert(n.clone(), Val::Bool(true));
                    progress = true;
                }
                Term::Not(a) => {
                    if let Term::Var(n, _) = &**a {
                        env.insert(n.clone(), Val::Bool(false));
                        progress = true;
                    }
                }
                _ => {}
            }
        }
        if !progress {
            return Some(());
        }
    }
}

fn choices(sort: Sort, lits: &BTreeSet<u128>) -> Vec<Val> {
    match sort {
        Sort::Bool => vec![Val::Bool(true), Val::Bool(false)],
        Sort::Ptr => vec![Val::Ptr(0), Val::Ptr(1), Val::Ptr(2)],
        Sort::BitVec(w) => {
            let mut s: Vec<u128> = vec![0, 1, 2, 5];
            s.push(mask(w));
            s.push(mask(w) >> 1);
            s.push((mask(w) >> 1) + 1);
            for l in lits {
                s.push(l.wrapping_sub(1) & mask(w));
                s.push(*l & mask(w));
                s.push(l.wrapping_add(1) & mask(w));
            }
            let mut seen = BTreeSet::new();
            s.into_iter().filter(|x| seen.insert(*x)).map(|x| Val::Bv(w, x)).collect()
        }
        Sort::GoSeq => {
            let mut s: Vec<u128> = vec![0, 1, 2, 3, 5];
            for l in lits {
                if *l < 1000 {
                    s.push(*l);
                    s.push(*l + 1);
                }
            }
            let mut out = Vec::new();
            for a in &s {
                out.push(Val::Slice(*a, *a));
                out.push(Val::Slice(*a, *a + 2));
            }
            out
        }
    }
}

fn search(asserts: &[&Term], consts: &[(String, Sort)], lits: &BTreeSet<u128>, env: Env) -> Option<Env> {
    let mut env = env;
    propagate(asserts, &mut env)?;
    let used: BTreeSet<String> = asserts
        .iter()
        .filter(|t| eval(t, &env).is_none())
        .flat_map(|t| {
            let m = t.free_vars();
            (0..m.len()).map(|i| m.key_at(i).clone()).collect::<Vec<_>>()
        })
        .collect();
    let next = consts.iter().find(|(n, _)| used.contains(n) && !env.contains_key(n));
    let (name, sort) = match next {
        Some(c) => c,
        None => return Some(env),
    };
    for v in choices(*sort, lits) {
        let mut e = env.clone();
        e.insert(name.clone(), v);
        if let Some(found) = search(asserts, consts, lits, e) {
            return Some(found);
        }
    }
    None
}

fn model_text(env: &Env) -> String {
    let mut out = String::new();
    for (n, v) in env {
        let text = match v {
            Val::Bool(b) => format!("{b}"),
            Val::Bv(w, x) => format!("(_ bv{x} {w})"),
            Val::Ptr(0) => "ptr-nil".to_string(),
            Val::Ptr(x) => format!("(ptr-addr #x{x:016x})"),
            Val::Slice(a, b) => format!("(seq-val {a} {b})"),
        };
        out.push_str(&format!("{n} -> {text}\n"));
    }
    out
}

fn solve(q: &Query) -> CachedOutcome {
    let mut asserts = Vec::new();
    let mut lits = BTreeSet::new();
    for t in &q.asserts {
        assert_eq!(t.sort(), Sort::Bool, "assertions are boolean");
        let vars = t.free_vars();
        for i in 0..vars.len() {
            let c = (vars.key_at(i).clone(), *vars.value_at(i));
            assert!(q.consts.contains(&c), "{c:?} is declared");
        }
        flatten(t, &mut asserts);
        literals(t, &mut lits);
    }
    match search(&asserts, &q.consts, &lits, Env::new()) {
        Some(env) => CachedOutcome::Sat { model: Some(model_text(&env)) },
        None => CachedOutcome::Unsat,
    }
}
