//! What collected effects hold, told from the instructions: an operation is in a function's
//! effects exactly where one of its instructions performs it, or brings it from a callee.

use vstd::prelude::*;
use crate::effects::{
    add_arms, add_chan, add_dispatched, add_go_defer, add_instr, add_lock, call_effects, collected,
    deferred_of, effects_join, effects_rebased, fv_slots, lemma_both, loc_unknown, lock_op_of,
    moves, moves_op, names_statically, own_effects, rebased, resolved, resolved_all, slot,
    spawns_in, static_callee, ChanOp, ChanOps, EffectsV, LockOp, LockOps, LocV, RootV, Spawns,
    MAX_LOC_DEPTH,
};
use crate::graph::{reaches_plus, succ_graph};
use crate::ir::{
    lock_kind_of, Callee, CallGraph, FuncId, Function, LockKind, MakeKind, Op, Program, SelectArm,
    Site, ValueId,
};
use crate::summary::TableV;

verus! {

// ---- What effects hold ----

/// Whether `e` holds channel operation `op` at `l`.
pub open spec fn on_chan(e: EffectsV, l: LocV, op: ChanOp) -> bool {
    e.chan.contains_key(l) && match op {
        ChanOp::Make => e.chan[l].make,
        ChanOp::Send => e.chan[l].send,
        ChanOp::Recv => e.chan[l].recv,
        ChanOp::Close => e.chan[l].close,
        ChanOp::Select => e.chan[l].select,
    }
}

/// Whether `e` holds mutex operation `op` at `l`.
pub open spec fn on_lock(e: EffectsV, l: LocV, op: LockOp) -> bool {
    e.lock.contains_key(l) && match op {
        LockOp::Lock => e.lock[l].lock,
        LockOp::Unlock => e.lock[l].unlock,
        LockOp::RLock => e.lock[l].rlock,
        LockOp::RUnlock => e.lock[l].runlock,
        LockOp::DeferredUnlock => e.lock[l].deferred_unlock,
        LockOp::DeferredRUnlock => e.lock[l].deferred_runlock,
    }
}

// ---- What instructions do ----

/// Where the first argument is; unknown where there is none.
pub open spec fn first_arg(f: &Function, args: Seq<ValueId>) -> LocV {
    if args.len() > 0 {
        resolved(f, args[0])
    } else {
        loc_unknown()
    }
}

/// Whether `name` is the method `method` of a mutex or of a read-write mutex.
pub open spec fn is_method(name: Seq<char>, method: Seq<char>) -> bool {
    name == "(*sync.Mutex)."@ + method || name == "(*sync.RWMutex)."@ + method
}

/// Whether `name` is the method `method` of a read-write mutex.
pub open spec fn is_shared_method(name: Seq<char>, method: Seq<char>) -> bool {
    name == "(*sync.RWMutex)."@ + method
}

/// Whether `name` is a method that locks or unlocks a mutex.
pub open spec fn is_locking(name: Seq<char>) -> bool {
    ||| is_method(name, "Lock"@)
    ||| is_method(name, "Unlock"@)
    ||| is_shared_method(name, "RLock"@)
    ||| is_shared_method(name, "RUnlock"@)
}

/// The function that an instruction calls by name and the arguments that it gets: now, in a
/// goroutine, or when the caller is left. The methods of a mutex, run in the latter two ways,
/// are operations and no calls.
pub open spec fn named_call(p: &Program, op: Op) -> Option<(FuncId, Seq<ValueId>)> {
    match op {
        Op::Call { callee: Callee::Static(c), args, .. } => Some((c, args@)),
        Op::Go { callee: Callee::Static(c), args } => if is_locking(p.name_of(c)) {
            None
        } else {
            Some((c, args@))
        },
        Op::Defer { callee: Callee::Static(c), args } => if is_locking(p.name_of(c)) {
            None
        } else {
            Some((c, args@))
        },
        _ => None,
    }
}

/// Whether a place `x` of the callee is `l` for the instruction that calls it.
pub open spec fn passes(p: &Program, f: &Function, op: Op, x: LocV, l: LocV) -> bool {
    named_call(p, op) matches Some((c, args)) && rebased(x, resolved_all(f, args), fv_slots(f, c))
        == l
}

/// Whether a function that an instruction calls by name performs `op` on what is `l` there.
pub open spec fn callee_on_chan(
    p: &Program,
    f: &Function,
    t: TableV,
    i: Op,
    l: LocV,
    op: ChanOp,
) -> bool {
    named_call(p, i) matches Some((c, args)) && exists|x: LocV|
        #[trigger] passes(p, f, i, x, l) && on_chan(t.effects_of(c), x, op)
}

/// Whether a function that an instruction calls by name performs `op` on what is `l` there.
pub open spec fn callee_on_lock(
    p: &Program,
    f: &Function,
    t: TableV,
    i: Op,
    l: LocV,
    op: LockOp,
) -> bool {
    named_call(p, i) matches Some((c, args)) && exists|x: LocV|
        #[trigger] passes(p, f, i, x, l) && on_lock(t.effects_of(c), x, op)
}

/// Whether an instruction closes `l` in a goroutine of its own or when the caller is left.
pub open spec fn closes_apart(f: &Function, i: Op, l: LocV) -> bool {
    match i {
        Op::Go { callee: Callee::Builtin(name), args } => name@ == "close"@ && first_arg(f, args@)
            == l,
        Op::Defer { callee: Callee::Builtin(name), args } => name@ == "close"@ && first_arg(
            f,
            args@,
        ) == l,
        _ => false,
    }
}

/// Whether an arm is on `l`.
pub open spec fn arm_on(f: &Function, arms: Seq<SelectArm>, i: int, l: LocV) -> bool {
    0 <= i < arms.len() && resolved(f, arms[i].chan) == l
}

/// Whether an instruction performs channel operation `op` on `l`, itself or by a call.
pub open spec fn does_chan(
    p: &Program,
    f: &Function,
    t: TableV,
    i: Op,
    l: LocV,
    op: ChanOp,
) -> bool {
    ||| callee_on_chan(p, f, t, i, l, op)
    ||| match op {
        ChanOp::Make => i matches Op::Make { dst, kind: MakeKind::Chan, .. } && resolved(f, dst)
            == l,
        ChanOp::Send => i matches Op::Send { chan, .. } && resolved(f, chan) == l,
        ChanOp::Recv => i matches Op::Recv { chan, .. } && resolved(f, chan) == l,
        ChanOp::Close => (i matches Op::CloseChan { chan } && resolved(f, chan) == l)
            || closes_apart(f, i, l),
        ChanOp::Select => i matches Op::Select { arms, .. } && exists|k: int|
            #[trigger] arm_on(f, arms@, k, l),
    }
}

/// Whether an instruction runs the method `method` of the mutex at `l` in a goroutine.
pub open spec fn method_spawned(p: &Program, f: &Function, i: Op, l: LocV, op: LockOp) -> bool {
    i matches Op::Go { callee: Callee::Static(c), args } && first_arg(f, args@) == l && match op {
        LockOp::Lock => is_method(p.name_of(c), "Lock"@),
        LockOp::Unlock => is_method(p.name_of(c), "Unlock"@),
        LockOp::RLock => is_shared_method(p.name_of(c), "RLock"@),
        LockOp::RUnlock => is_shared_method(p.name_of(c), "RUnlock"@),
        LockOp::DeferredUnlock => false,
        LockOp::DeferredRUnlock => false,
    }
}

/// Whether an instruction runs the method `method` of the mutex at `l` when the caller is left.
pub open spec fn method_deferred(p: &Program, f: &Function, i: Op, l: LocV, op: LockOp) -> bool {
    i matches Op::Defer { callee: Callee::Static(c), args } && first_arg(f, args@) == l && match op {
        LockOp::Lock => is_method(p.name_of(c), "Lock"@),
        LockOp::Unlock => false,
        LockOp::RLock => is_shared_method(p.name_of(c), "RLock"@),
        LockOp::RUnlock => false,
        LockOp::DeferredUnlock => is_method(p.name_of(c), "Unlock"@),
        LockOp::DeferredRUnlock => is_shared_method(p.name_of(c), "RUnlock"@),
    }
}

/// Whether an instruction performs mutex operation `op` on `l`, itself or by a call.
pub open spec fn does_lock(
    p: &Program,
    f: &Function,
    t: TableV,
    i: Op,
    l: LocV,
    op: LockOp,
) -> bool {
    ||| callee_on_lock(p, f, t, i, l, op)
    ||| method_spawned(p, f, i, l, op)
    ||| method_deferred(p, f, i, l, op)
    ||| i matches Op::Lock { kind, mu } && resolved(f, mu) == l && match op {
        LockOp::Lock => kind == LockKind::Lock,
        LockOp::Unlock => kind == LockKind::Unlock,
        LockOp::RLock => kind == LockKind::RLock,
        LockOp::RUnlock => kind == LockKind::RUnlock,
        LockOp::DeferredUnlock => false,
        LockOp::DeferredRUnlock => false,
    }
}

/// Whether the instruction at `s` starts at least `n` goroutines, itself or by a call, where
/// one stands for a bounded number and two for any number: a `go` statement starts any number
/// where control can come back to it.
pub open spec fn spawns_at_least(p: &Program, f: &Function, t: TableV, s: Site, n: int) -> bool {
    ||| f.op_at(s) is Go && (n <= 1 || (n <= 2 && reaches_plus(
        succ_graph(f),
        s.0 as int,
        s.0 as int,
    )))
    ||| named_call(p, f.op_at(s)) matches Some((c, args)) && t.effects_of(c).spawns.rank() >= n
}

// ---- Places of other functions ----

/// A callee's places, seen by its caller: what is reached from parameter `i` is reached by the
/// same path from argument `i`, and what is reached from captured variable `i` from binding
/// `i`; globals are what they are; everything else, and every path that grows too long, is
/// unknown.
pub proof fn places_continue_from_arguments(
    root: LocV,
    path: Seq<u32>,
    i: u32,
    args: Seq<LocV>,
    fvs: Seq<LocV>,
)
    requires
        root.path.len() + path.len() <= MAX_LOC_DEPTH,
        !(root.root is Unknown),
    ensures
        i < args.len() && args[i as int] == root ==> rebased(
            LocV { root: RootV::Param(i), path },
            args,
            fvs,
        ) == (LocV { root: root.root, path: root.path + path }),
        i < fvs.len() && fvs[i as int] == root ==> rebased(
            LocV { root: RootV::FreeVar(i), path },
            args,
            fvs,
        ) == (LocV { root: root.root, path: root.path + path }),
        i >= args.len() ==> rebased(
            LocV { root: RootV::Param(i), path },
            args,
            fvs,
        ).root is Unknown,
        i >= fvs.len() ==> rebased(
            LocV { root: RootV::FreeVar(i), path },
            args,
            fvs,
        ).root is Unknown,
        root.root is Global ==> rebased(root, args, fvs) == root,
        root.root is Alloc ==> rebased(root, args, fvs) == loc_unknown(),
{
}

// ---- The steps ----

spec fn chan_number(op: ChanOp) -> int {
    match op {
        ChanOp::Make => 0,
        ChanOp::Send => 1,
        ChanOp::Recv => 2,
        ChanOp::Close => 3,
        ChanOp::Select => 4,
    }
}

spec fn lock_number(op: LockOp) -> int {
    match op {
        LockOp::Lock => 0,
        LockOp::Unlock => 1,
        LockOp::RLock => 2,
        LockOp::RUnlock => 3,
        LockOp::DeferredUnlock => 4,
        LockOp::DeferredRUnlock => 5,
    }
}

proof fn lemma_join(a: EffectsV, b: EffectsV, l: LocV)
    ensures
        forall|op: ChanOp|
            #[trigger] on_chan(effects_join(a, b), l, op) == (on_chan(a, l, op) || on_chan(b, l, op)),
        forall|op: LockOp|
            #[trigger] on_lock(effects_join(a, b), l, op) == (on_lock(a, l, op) || on_lock(b, l, op)),
{
    lemma_both(a.chan[l], b.chan[l]);
    lemma_both(a.lock[l], b.lock[l]);
}

proof fn lemma_add_chan(e: EffectsV, at: LocV, what: ChanOp, l: LocV)
    ensures
        forall|op: ChanOp|
            #[trigger] on_chan(add_chan(e, at, what), l, op) == (on_chan(e, l, op) || (l == at && op == what)),
        forall|op: LockOp| #[trigger] on_lock(add_chan(e, at, what), l, op) == on_lock(e, l, op),
        add_chan(e, at, what).spawns == e.spawns,
{
    lemma_both(e.chan[at], ChanOps::only(what));
}

proof fn lemma_add_lock(e: EffectsV, at: LocV, what: LockOp, l: LocV)
    ensures
        forall|op: LockOp|
            #[trigger] on_lock(add_lock(e, at, what), l, op) == (on_lock(e, l, op) || (l == at && op == what)),
        forall|op: ChanOp| #[trigger] on_chan(add_lock(e, at, what), l, op) == on_chan(e, l, op),
        add_lock(e, at, what).spawns == e.spawns,
{
    lemma_both(e.lock[at], LockOps::only(what));
}

proof fn lemma_add_arms(f: &Function, e: EffectsV, arms: Seq<SelectArm>, n: int, l: LocV)
    requires
        0 <= n <= arms.len(),
    ensures
        forall|op: ChanOp|
            #[trigger] on_chan(add_arms(f, e, arms, n), l, op) == (on_chan(e, l, op) || (op == ChanOp::Select
                && exists|k: int| k < n && #[trigger] arm_on(f, arms, k, l))),
        forall|op: LockOp| #[trigger] on_lock(add_arms(f, e, arms, n), l, op) == on_lock(e, l, op),
        add_arms(f, e, arms, n).spawns == e.spawns,
    decreases n,
{
    if n > 0 {
        lemma_add_arms(f, e, arms, n - 1, l);
        lemma_add_chan(add_arms(f, e, arms, n - 1), resolved(f, arms[n - 1].chan), ChanOp::Select, l);
        assert(arm_on(f, arms, n - 1, l) == (resolved(f, arms[n - 1].chan) == l));
        assert forall|op: ChanOp|
            #[trigger] on_chan(add_arms(f, e, arms, n), l, op) == (on_chan(e, l, op) || (op == ChanOp::Select
                && exists|k: int| k < n && #[trigger] arm_on(f, arms, k, l))) by {
            if exists|k: int| k < n && #[trigger] arm_on(f, arms, k, l) {
                let k = choose|k: int| k < n && #[trigger] arm_on(f, arms, k, l);
                assert(k < n - 1 || k == n - 1);
            }
        }
    }
}

/// Whether `e` holds `op` at `x`, which is `l` for a caller.
pub open spec fn brings_chan(
    e: EffectsV,
    args: Seq<LocV>,
    fvs: Seq<LocV>,
    x: LocV,
    l: LocV,
    op: ChanOp,
) -> bool {
    on_chan(e, x, op) && rebased(x, args, fvs) == l
}

/// Whether `e` holds `op` at `x`, which is `l` for a caller.
pub open spec fn brings_lock(
    e: EffectsV,
    args: Seq<LocV>,
    fvs: Seq<LocV>,
    x: LocV,
    l: LocV,
    op: LockOp,
) -> bool {
    on_lock(e, x, op) && rebased(x, args, fvs) == l
}

/// A callee's effects as its caller sees them hold an operation at a place exactly if the
/// callee performs it at a place that is this one for the caller.
pub proof fn rebasing_moves_operations(
    e: EffectsV,
    args: Seq<LocV>,
    fvs: Seq<LocV>,
    l: LocV,
    chan: ChanOp,
    lock: LockOp,
)
    ensures
        on_chan(effects_rebased(e, args, fvs), l, chan) <==> exists|x: LocV| #[trigger]
            brings_chan(e, args, fvs, x, l, chan),
        on_lock(effects_rebased(e, args, fvs), l, lock) <==> exists|x: LocV| #[trigger]
            brings_lock(e, args, fvs, x, l, lock),
        effects_rebased(e, args, fvs).spawns == e.spawns,
{
    let r = effects_rebased(e, args, fvs);
    let k = chan_number(chan);
    let j = lock_number(lock);
    if on_chan(r, l, chan) {
        let x = choose|x: LocV| #[trigger] moves_op(e.chan, args, fvs, x, l, k);
        assert(moves_op(e.chan, args, fvs, x, l, k));
        assert(brings_chan(e, args, fvs, x, l, chan));
    }
    if exists|x: LocV| #[trigger] brings_chan(e, args, fvs, x, l, chan) {
        let x = choose|x: LocV| #[trigger] brings_chan(e, args, fvs, x, l, chan);
        assert(moves(e.chan, args, fvs, x, l));
        assert(moves_op(e.chan, args, fvs, x, l, k));
    }
    if on_lock(r, l, lock) {
        let x = choose|x: LocV| #[trigger] moves_op(e.lock, args, fvs, x, l, j);
        assert(moves_op(e.lock, args, fvs, x, l, j));
        assert(brings_lock(e, args, fvs, x, l, lock));
    }
    if exists|x: LocV| #[trigger] brings_lock(e, args, fvs, x, l, lock) {
        let x = choose|x: LocV| #[trigger] brings_lock(e, args, fvs, x, l, lock);
        assert(moves(e.lock, args, fvs, x, l));
        assert(moves_op(e.lock, args, fvs, x, l, j));
    }
}

// ---- Names of mutex methods ----

/// The methods of a mutex are known by their names: `Lock` and `Unlock` of either kind of
/// mutex, `RLock` and `RUnlock` of a read-write mutex, and nothing else.
pub proof fn mutex_methods_are_known_by_name(name: Seq<char>)
    ensures
        lock_kind_of(name) == Some(LockKind::Lock) <==> is_method(name, "Lock"@),
        lock_kind_of(name) == Some(LockKind::Unlock) <==> is_method(name, "Unlock"@),
        lock_kind_of(name) == Some(LockKind::RLock) <==> is_shared_method(name, "RLock"@),
        lock_kind_of(name) == Some(LockKind::RUnlock) <==> is_shared_method(name, "RUnlock"@),
        lock_kind_of(name) is Some <==> is_locking(name),
{
    reveal_strlit("(*sync.Mutex).");
    reveal_strlit("(*sync.RWMutex).");
    reveal_strlit("Lock");
    reveal_strlit("Unlock");
    reveal_strlit("RLock");
    reveal_strlit("RUnlock");
    reveal_strlit("(*sync.Mutex).Lock");
    reveal_strlit("(*sync.RWMutex).Lock");
    reveal_strlit("(*sync.Mutex).Unlock");
    reveal_strlit("(*sync.RWMutex).Unlock");
    reveal_strlit("(*sync.RWMutex).RLock");
    reveal_strlit("(*sync.RWMutex).RUnlock");
    assert("(*sync.Mutex)."@ + "Lock"@ =~= "(*sync.Mutex).Lock"@);
    assert("(*sync.RWMutex)."@ + "Lock"@ =~= "(*sync.RWMutex).Lock"@);
    assert("(*sync.Mutex)."@ + "Unlock"@ =~= "(*sync.Mutex).Unlock"@);
    assert("(*sync.RWMutex)."@ + "Unlock"@ =~= "(*sync.RWMutex).Unlock"@);
    assert("(*sync.RWMutex)."@ + "RLock"@ =~= "(*sync.RWMutex).RLock"@);
    assert("(*sync.RWMutex)."@ + "RUnlock"@ =~= "(*sync.RWMutex).RUnlock"@);
    assert("(*sync.RWMutex).Lock"@[7] != "(*sync.Mutex).Unlock"@[7]);
    assert("(*sync.RWMutex).Unlock"@.len() == 22);
    assert("(*sync.RWMutex).RLock"@.len() == 21);
    assert("(*sync.RWMutex).RUnlock"@.len() == 23);
    assert("(*sync.Mutex).Lock"@.len() == 18);
}

// ---- What a function does ----

proof fn lemma_call(p: &Program, f: &Function, t: TableV, i: Op, l: LocV)
    requires
        named_call(p, i) is Some,
    ensures
        ({
            let (c, args) = named_call(p, i).unwrap();
            let e = call_effects(f, t, c, args);
            &&& forall|op: ChanOp| #[trigger] on_chan(e, l, op) == callee_on_chan(p, f, t, i, l, op)
            &&& forall|op: LockOp| #[trigger] on_lock(e, l, op) == callee_on_lock(p, f, t, i, l, op)
            &&& e.spawns == t.effects_of(c).spawns
        }),
{
    let (c, args) = named_call(p, i).unwrap();
    let e = call_effects(f, t, c, args);
    let a = resolved_all(f, args);
    let b = fv_slots(f, c);
    assert forall|op: ChanOp| #[trigger] on_chan(e, l, op) == callee_on_chan(p, f, t, i, l, op) by {
        rebasing_moves_operations(t.effects_of(c), a, b, l, op, LockOp::Lock);
        if on_chan(e, l, op) {
            let x = choose|x: LocV| #[trigger] brings_chan(t.effects_of(c), a, b, x, l, op);
            assert(passes(p, f, i, x, l));
        }
        if callee_on_chan(p, f, t, i, l, op) {
            let x = choose|x: LocV|
                #[trigger] passes(p, f, i, x, l) && on_chan(t.effects_of(c), x, op);
            assert(brings_chan(t.effects_of(c), a, b, x, l, op));
        }
    }
    assert forall|op: LockOp| #[trigger] on_lock(e, l, op) == callee_on_lock(p, f, t, i, l, op) by {
        rebasing_moves_operations(t.effects_of(c), a, b, l, ChanOp::Make, op);
        if on_lock(e, l, op) {
            let x = choose|x: LocV| #[trigger] brings_lock(t.effects_of(c), a, b, x, l, op);
            assert(passes(p, f, i, x, l));
        }
        if callee_on_lock(p, f, t, i, l, op) {
            let x = choose|x: LocV|
                #[trigger] passes(p, f, i, x, l) && on_lock(t.effects_of(c), x, op);
            assert(brings_lock(t.effects_of(c), a, b, x, l, op));
        }
    }
}

/// What one instruction adds to the effects: the operations that it performs, and the
/// goroutines that it starts.
pub proof fn an_instruction_adds_what_it_does(
    p: &Program,
    f: &Function,
    t: TableV,
    e: EffectsV,
    s: Site,
    l: LocV,
    chan: ChanOp,
    lock: LockOp,
    n: int,
)
    requires
        n > 0,
    ensures
        on_chan(add_instr(p, f, t, e, s), l, chan) <==> on_chan(e, l, chan) || does_chan(
            p,
            f,
            t,
            f.op_at(s),
            l,
            chan,
        ),
        on_lock(add_instr(p, f, t, e, s), l, lock) <==> on_lock(e, l, lock) || does_lock(
            p,
            f,
            t,
            f.op_at(s),
            l,
            lock,
        ),
        add_instr(p, f, t, e, s).spawns.rank() >= n <==> e.spawns.rank() >= n || spawns_at_least(
            p,
            f,
            t,
            s,
            n,
        ),
{
    let i = f.op_at(s);
    match i {
        Op::Make { dst, kind, .. } => {
            lemma_add_chan(e, resolved(f, dst), ChanOp::Make, l);
        },
        Op::Send { chan, .. } => {
            lemma_add_chan(e, resolved(f, chan), ChanOp::Send, l);
        },
        Op::Recv { chan, .. } => {
            lemma_add_chan(e, resolved(f, chan), ChanOp::Recv, l);
        },
        Op::CloseChan { chan } => {
            lemma_add_chan(e, resolved(f, chan), ChanOp::Close, l);
        },
        Op::Select { arms, .. } => {
            lemma_add_arms(f, e, arms@, arms@.len() as int, l);
            if exists|k: int| #[trigger] arm_on(f, arms@, k, l) {
                let k = choose|k: int| #[trigger] arm_on(f, arms@, k, l);
                assert(k < arms@.len());
            }
        },
        Op::Lock { kind, mu } => {
            lemma_add_lock(e, resolved(f, mu), lock_op_of(kind), l);
        },
        Op::Call { callee, args, .. } => {
            if let Callee::Static(c) = callee {
                lemma_call(p, f, t, i, l);
                lemma_join(e, call_effects(f, t, c, args@), l);
            }
        },
        Op::Go { callee, args } => {
            let e1 = EffectsV {
                spawns: e.spawns.max_of(spawns_in(f, s.0 as int)),
                ..e
            };
            lemma_go_defer(p, f, t, e1, i, l);
        },
        Op::Defer { callee, args } => {
            lemma_go_defer(p, f, t, e, i, l);
        },
        _ => {},
    }
}

proof fn lemma_go_defer(p: &Program, f: &Function, t: TableV, e: EffectsV, i: Op, l: LocV)
    ensures
        i matches Op::Go { callee, args } ==> lands(
            p,
            f,
            t,
            e,
            i,
            l,
            add_go_defer(p, f, t, e, callee, args@, false),
        ),
        i matches Op::Defer { callee, args } ==> lands(
            p,
            f,
            t,
            e,
            i,
            l,
            add_go_defer(p, f, t, e, callee, args@, true),
        ),
{
    let (callee, args) = match i {
        Op::Go { callee, args } => (callee, args@),
        Op::Defer { callee, args } => (callee, args@),
        _ => arbitrary(),
    };
    let at = slot(resolved_all(f, args), 0);
    assert(at == first_arg(f, args));
    match callee {
        Callee::Builtin(name) => {
            lemma_add_chan(e, at, ChanOp::Close, l);
        },
        Callee::Static(c) => {
            mutex_methods_are_known_by_name(p.name_of(c));
            match lock_kind_of(p.name_of(c)) {
                Some(kind) => {
                    let op = lock_op_of(kind);
                    lemma_add_lock(e, at, op, l);
                    lemma_add_lock(e, at, deferred_of(op), l);
                },
                None => {
                    if i is Go || i is Defer {
                        lemma_call(p, f, t, i, l);
                    }
                    lemma_join(e, call_effects(f, t, c, args), l);
                },
            }
        },
        _ => {},
    }
}

/// Whether `r` is `e` with what a `go` or `defer` statement does besides starting a goroutine.
spec fn lands(
    p: &Program,
    f: &Function,
    t: TableV,
    e: EffectsV,
    i: Op,
    l: LocV,
    r: EffectsV,
) -> bool {
    &&& forall|op: ChanOp| #[trigger] on_chan(r, l, op) == (on_chan(e, l, op) || does_chan(p, f, t, i, l, op))
    &&& forall|op: LockOp| #[trigger] on_lock(r, l, op) == (on_lock(e, l, op) || does_lock(p, f, t, i, l, op))
    &&& r.spawns == match named_call(p, i) {
        Some((c, args)) => e.spawns.max_of(t.effects_of(c).spawns),
        None => e.spawns,
    }
}

/// Whether instruction `k` performs `op` on `l`.
pub open spec fn chan_by(
    p: &Program,
    f: &Function,
    t: TableV,
    k: int,
    l: LocV,
    op: ChanOp,
) -> bool {
    0 <= k < f.sites().len() && does_chan(p, f, t, f.op_at(f.sites()[k]), l, op)
}

/// Whether instruction `k` performs `op` on `l`.
pub open spec fn lock_by(
    p: &Program,
    f: &Function,
    t: TableV,
    k: int,
    l: LocV,
    op: LockOp,
) -> bool {
    0 <= k < f.sites().len() && does_lock(p, f, t, f.op_at(f.sites()[k]), l, op)
}

/// Whether instruction `k` starts at least `n` goroutines.
pub open spec fn spawns_by(p: &Program, f: &Function, t: TableV, k: int, n: int) -> bool {
    0 <= k < f.sites().len() && spawns_at_least(p, f, t, f.sites()[k], n)
}

/// Whether callee `k` is reached by dispatch only.
pub open spec fn dispatched(f: &Function, callees: Seq<FuncId>, k: int) -> bool {
    0 <= k < callees.len() && !exists|i: int|
        0 <= i < f.sites().len() && #[trigger] names(f.op_at(f.sites()[i]), callees[k])
}

/// Whether an instruction names `c` in a call, `go` or `defer`.
pub open spec fn names(op: Op, c: FuncId) -> bool {
    match op {
        Op::Call { callee, .. } => callee == Callee::Static(c),
        Op::Go { callee, .. } => callee == Callee::Static(c),
        Op::Defer { callee, .. } => callee == Callee::Static(c),
        _ => false,
    }
}

/// Whether dispatched callee `k` performs `op` on what is `l` for a caller of which nothing is
/// known.
pub open spec fn chan_by_dispatch(
    f: &Function,
    t: TableV,
    callees: Seq<FuncId>,
    k: int,
    l: LocV,
    op: ChanOp,
) -> bool {
    dispatched(f, callees, k) && exists|x: LocV| #[trigger]
        brings_chan(t.effects_of(callees[k]), Seq::empty(), Seq::empty(), x, l, op)
}

/// Whether dispatched callee `k` performs `op` on what is `l` for a caller of which nothing is
/// known.
pub open spec fn lock_by_dispatch(
    f: &Function,
    t: TableV,
    callees: Seq<FuncId>,
    k: int,
    l: LocV,
    op: LockOp,
) -> bool {
    dispatched(f, callees, k) && exists|x: LocV| #[trigger]
        brings_lock(t.effects_of(callees[k]), Seq::empty(), Seq::empty(), x, l, op)
}

/// Whether dispatched callee `k` starts at least `n` goroutines.
pub open spec fn spawns_by_dispatch(
    f: &Function,
    t: TableV,
    callees: Seq<FuncId>,
    k: int,
    n: int,
) -> bool {
    dispatched(f, callees, k) && t.effects_of(callees[k]).spawns.rank() >= n
}

proof fn lemma_own(
    p: &Program,
    f: &Function,
    t: TableV,
    m: int,
    l: LocV,
    chan: ChanOp,
    lock: LockOp,
    n: int,
)
    requires
        0 <= m <= f.sites().len(),
        n > 0,
    ensures
        on_chan(own_effects(p, f, t, m), l, chan) <==> exists|k: int|
            k < m && #[trigger] chan_by(p, f, t, k, l, chan),
        on_lock(own_effects(p, f, t, m), l, lock) <==> exists|k: int|
            k < m && #[trigger] lock_by(p, f, t, k, l, lock),
        own_effects(p, f, t, m).spawns.rank() >= n <==> exists|k: int|
            k < m && #[trigger] spawns_by(p, f, t, k, n),
    decreases m,
{
    if m > 0 {
        lemma_own(p, f, t, m - 1, l, chan, lock, n);
        let e = own_effects(p, f, t, m - 1);
        an_instruction_adds_what_it_does(p, f, t, e, f.sites()[m - 1], l, chan, lock, n);
        assert(chan_by(p, f, t, m - 1, l, chan) == does_chan(
            p,
            f,
            t,
            f.op_at(f.sites()[m - 1]),
            l,
            chan,
        ));
        assert(lock_by(p, f, t, m - 1, l, lock) == does_lock(
            p,
            f,
            t,
            f.op_at(f.sites()[m - 1]),
            l,
            lock,
        ));
        assert(spawns_by(p, f, t, m - 1, n) == spawns_at_least(p, f, t, f.sites()[m - 1], n));
        if exists|k: int| k < m && #[trigger] chan_by(p, f, t, k, l, chan) {
            let k = choose|k: int| k < m && #[trigger] chan_by(p, f, t, k, l, chan);
            assert(k < m - 1 || k == m - 1);
        }
        if exists|k: int| k < m && #[trigger] lock_by(p, f, t, k, l, lock) {
            let k = choose|k: int| k < m && #[trigger] lock_by(p, f, t, k, l, lock);
            assert(k < m - 1 || k == m - 1);
        }
        if exists|k: int| k < m && #[trigger] spawns_by(p, f, t, k, n) {
            let k = choose|k: int| k < m && #[trigger] spawns_by(p, f, t, k, n);
            assert(k < m - 1 || k == m - 1);
        }
    }
}

proof fn lemma_dispatched_iff(f: &Function, callees: Seq<FuncId>, k: int)
    requires
        0 <= k < callees.len(),
    ensures
        dispatched(f, callees, k) == !names_statically(f, callees[k], f.sites().len() as int),
{
    let c = callees[k];
    let n = f.sites().len() as int;
    if names_statically(f, c, n) {
        let i = choose|i: int|
            0 <= i < n && static_callee(f.op_at(#[trigger] f.sites()[i])) == Some(c);
        assert(names(f.op_at(f.sites()[i]), c));
    }
    if exists|i: int| 0 <= i < n && #[trigger] names(f.op_at(f.sites()[i]), c) {
        let i = choose|i: int| 0 <= i < n && #[trigger] names(f.op_at(f.sites()[i]), c);
        assert(static_callee(f.op_at(f.sites()[i])) == Some(c));
    }
}

proof fn lemma_dispatch(
    f: &Function,
    t: TableV,
    e: EffectsV,
    cs: Seq<FuncId>,
    m: int,
    l: LocV,
    chan: ChanOp,
    lock: LockOp,
    n: int,
)
    requires
        0 <= m <= cs.len(),
        n > 0,
    ensures
        on_chan(add_dispatched(f, t, e, cs, m), l, chan) <==> on_chan(e, l, chan) || exists|k: int|
            k < m && #[trigger] chan_by_dispatch(f, t, cs, k, l, chan),
        on_lock(add_dispatched(f, t, e, cs, m), l, lock) <==> on_lock(e, l, lock) || exists|k: int|
            k < m && #[trigger] lock_by_dispatch(f, t, cs, k, l, lock),
        add_dispatched(f, t, e, cs, m).spawns.rank() >= n <==> e.spawns.rank() >= n || exists|
            k: int,
        |
            k < m && #[trigger] spawns_by_dispatch(f, t, cs, k, n),
    decreases m,
{
    if m > 0 {
        lemma_dispatch(f, t, e, cs, m - 1, l, chan, lock, n);
        lemma_dispatched_iff(f, cs, m - 1);
        let before = add_dispatched(f, t, e, cs, m - 1);
        let ce = t.effects_of(cs[m - 1]);
        let r = effects_rebased(ce, Seq::empty(), Seq::empty());
        rebasing_moves_operations(ce, Seq::empty(), Seq::empty(), l, chan, lock);
        lemma_join(before, r, l);
        assert(chan_by_dispatch(f, t, cs, m - 1, l, chan) == (dispatched(f, cs, m - 1) && on_chan(
            r,
            l,
            chan,
        )));
        assert(lock_by_dispatch(f, t, cs, m - 1, l, lock) == (dispatched(f, cs, m - 1) && on_lock(
            r,
            l,
            lock,
        )));
        assert(spawns_by_dispatch(f, t, cs, m - 1, n) == (dispatched(f, cs, m - 1)
            && ce.spawns.rank() >= n));
        if exists|k: int| k < m && #[trigger] chan_by_dispatch(f, t, cs, k, l, chan) {
            let k = choose|k: int| k < m && #[trigger] chan_by_dispatch(f, t, cs, k, l, chan);
            assert(k < m - 1 || k == m - 1);
        }
        if exists|k: int| k < m && #[trigger] lock_by_dispatch(f, t, cs, k, l, lock) {
            let k = choose|k: int| k < m && #[trigger] lock_by_dispatch(f, t, cs, k, l, lock);
            assert(k < m - 1 || k == m - 1);
        }
        if exists|k: int| k < m && #[trigger] spawns_by_dispatch(f, t, cs, k, n) {
            let k = choose|k: int| k < m && #[trigger] spawns_by_dispatch(f, t, cs, k, n);
            assert(k < m - 1 || k == m - 1);
        }
    }
}

/// A function's effects hold a channel operation at a place exactly if one of its instructions
/// performs it there (makes, sends on, receives from, closes or selects on the channel, or
/// calls by name what does), or what it reaches by dispatch only does. So for mutex
/// operations, and for the goroutines that it starts.
pub proof fn effects_are_what_instructions_do(
    p: &Program,
    id: FuncId,
    f: Function,
    graph: &CallGraph,
    t: TableV,
    l: LocV,
    chan: ChanOp,
    lock: LockOp,
    n: int,
)
    requires
        p.body(id) == Some(f),
        n > 0,
    ensures
        on_chan(collected(p, id, graph, t), l, chan) <==> (exists|k: int| #[trigger]
            chan_by(p, &f, t, k, l, chan)) || (exists|k: int| #[trigger]
            chan_by_dispatch(&f, t, graph.callees_of(id), k, l, chan)),
        on_lock(collected(p, id, graph, t), l, lock) <==> (exists|k: int| #[trigger]
            lock_by(p, &f, t, k, l, lock)) || (exists|k: int| #[trigger]
            lock_by_dispatch(&f, t, graph.callees_of(id), k, l, lock)),
        collected(p, id, graph, t).spawns.rank() >= n <==> (exists|k: int| #[trigger]
            spawns_by(p, &f, t, k, n)) || (exists|k: int| #[trigger]
            spawns_by_dispatch(&f, t, graph.callees_of(id), k, n)),
{
    let m = f.sites().len() as int;
    let cs = graph.callees_of(id);
    lemma_own(p, &f, t, m, l, chan, lock, n);
    lemma_dispatch(
        &f,
        t,
        own_effects(p, &f, t, m),
        cs,
        cs.len() as int,
        l,
        chan,
        lock,
        n,
    );
    assert((exists|k: int| #[trigger] chan_by(p, &f, t, k, l, chan)) ==> exists|k: int|
        k < m && #[trigger] chan_by(p, &f, t, k, l, chan));
    assert((exists|k: int| #[trigger] lock_by(p, &f, t, k, l, lock)) ==> exists|k: int|
        k < m && #[trigger] lock_by(p, &f, t, k, l, lock));
    assert((exists|k: int| #[trigger] spawns_by(p, &f, t, k, n)) ==> exists|k: int|
        k < m && #[trigger] spawns_by(p, &f, t, k, n));
    assert((exists|k: int| #[trigger] chan_by_dispatch(&f, t, cs, k, l, chan)) ==> exists|k: int|
        k < cs.len() && #[trigger] chan_by_dispatch(&f, t, cs, k, l, chan));
    assert((exists|k: int| #[trigger] lock_by_dispatch(&f, t, cs, k, l, lock)) ==> exists|k: int|
        k < cs.len() && #[trigger] lock_by_dispatch(&f, t, cs, k, l, lock));
    assert((exists|k: int| #[trigger] spawns_by_dispatch(&f, t, cs, k, n)) ==> exists|k: int|
        k < cs.len() && #[trigger] spawns_by_dispatch(&f, t, cs, k, n));
}

/// Each channel instruction leaves its own operation in the effects, at the place of its
/// channel.
pub proof fn channel_instructions_are_recorded(
    p: &Program,
    id: FuncId,
    f: Function,
    graph: &CallGraph,
    t: TableV,
    k: int,
)
    requires
        p.body(id) == Some(f),
        0 <= k < f.sites().len(),
    ensures
        ({
            let chan = collected(p, id, graph, t).chan;
            match f.op_at(f.sites()[k]) {
                Op::Make { dst, kind: MakeKind::Chan, .. } => chan.contains_key(resolved(&f, dst))
                    && chan[resolved(&f, dst)].make,
                Op::Send { chan: c, .. } => chan.contains_key(resolved(&f, c)) && chan[resolved(
                    &f,
                    c,
                )].send,
                Op::Recv { chan: c, .. } => chan.contains_key(resolved(&f, c)) && chan[resolved(
                    &f,
                    c,
                )].recv,
                Op::CloseChan { chan: c } => chan.contains_key(resolved(&f, c)) && chan[resolved(
                    &f,
                    c,
                )].close,
                Op::Select { arms, .. } => forall|i: int|
                    0 <= i < arms@.len() ==> {
                        let l = resolved(&f, (#[trigger] arms@[i]).chan);
                        chan.contains_key(l) && chan[l].select
                    },
                _ => true,
            }
        }),
{
    let e = collected(p, id, graph, t);
    match f.op_at(f.sites()[k]) {
        Op::Make { dst, kind: MakeKind::Chan, .. } => {
            lemma_recorded(p, id, f, graph, t, k, resolved(&f, dst), ChanOp::Make);
        },
        Op::Send { chan: c, .. } => {
            lemma_recorded(p, id, f, graph, t, k, resolved(&f, c), ChanOp::Send);
        },
        Op::Recv { chan: c, .. } => {
            lemma_recorded(p, id, f, graph, t, k, resolved(&f, c), ChanOp::Recv);
        },
        Op::CloseChan { chan: c } => {
            lemma_recorded(p, id, f, graph, t, k, resolved(&f, c), ChanOp::Close);
        },
        Op::Select { arms, .. } => {
            assert forall|i: int| 0 <= i < arms@.len() implies {
                let l = resolved(&f, (#[trigger] arms@[i]).chan);
                e.chan.contains_key(l) && e.chan[l].select
            } by {
                let l = resolved(&f, arms@[i].chan);
                assert(arm_on(&f, arms@, i, l));
                lemma_recorded(p, id, f, graph, t, k, l, ChanOp::Select);
            }
        },
        _ => {},
    }
}

proof fn lemma_recorded(
    p: &Program,
    id: FuncId,
    f: Function,
    graph: &CallGraph,
    t: TableV,
    k: int,
    l: LocV,
    op: ChanOp,
)
    requires
        p.body(id) == Some(f),
        0 <= k < f.sites().len(),
        does_chan(p, &f, t, f.op_at(f.sites()[k]), l, op),
    ensures
        on_chan(collected(p, id, graph, t), l, op),
{
    assert(chan_by(p, &f, t, k, l, op));
    effects_are_what_instructions_do(p, id, f, graph, t, l, op, LockOp::Lock, 1);
}

/// A function without a body may do anything, to nothing that is known.
pub proof fn unseen_functions_do_everything(
    p: &Program,
    id: FuncId,
    graph: &CallGraph,
    t: TableV,
    l: LocV,
    chan: ChanOp,
    lock: LockOp,
)
    requires
        p.body(id) is None,
    ensures
        on_chan(collected(p, id, graph, t), l, chan) <==> l == loc_unknown(),
        on_lock(collected(p, id, graph, t), l, lock) <==> l == loc_unknown(),
        collected(p, id, graph, t).spawns == Spawns::Unbounded,
{
}

} // verus!
