//! Collecting effects: it misses no call, it grows with what callees do, and no access path
//! exceeds the cap.

use vstd::prelude::*;
use crate::annotations::Annotations;
use crate::checker::Checker;
use crate::effects::{
    add_arms, add_chan, add_dispatched, add_go_defer, add_instr, add_lock, both, call_effects,
    collected, deferred_of, effects_empty, effects_join, effects_le, effects_rebased, effects_top,
    fv_slots, join_monotone, lemma_both, loc_capped, lock_op_of, map_add, map_le, map_union, moves,
    moves_op, names_statically, own_effects, rebase_keeps_cap, rebased_map, resolve_within_cap,
    resolved, resolved_all, slot, spawns_in, ChanOp, ChanOps, EffectsV, LockOp, LockOps, LocV,
    OpSet,
};
use crate::fixpoint::{
    analysis_fails, function_summary, members_fit, round_upto, started, with_summary, AnswersV,
    ComponentV,
};
use crate::ir::{
    lock_kind_of, Callee, CallGraph, FuncId, Function, Op, Program, SelectArm, Site, ValueId,
};
use crate::summary::{SummaryV, TableV};

verus! {

// ---- The order ----

proof fn lemma_le_trans<S: OpSet>(a: Map<LocV, S>, b: Map<LocV, S>, c: Map<LocV, S>)
    requires
        map_le(a, b),
        map_le(b, c),
    ensures
        map_le(a, c),
{
    assert forall|l: LocV| #[trigger] a.contains_key(l) implies c.contains_key(l) && forall|k: int|
        S::is_op(k) && #[trigger] a[l].has(k) ==> c[l].has(k) by {
        assert(b.contains_key(l));
        assert forall|k: int| S::is_op(k) && #[trigger] a[l].has(k) implies c[l].has(k) by {
            assert(b[l].has(k));
        }
    }
}

/// What is within what is within is within.
pub proof fn le_transitive(a: EffectsV, b: EffectsV, c: EffectsV)
    requires
        effects_le(a, b),
        effects_le(b, c),
    ensures
        effects_le(a, c),
{
    lemma_le_trans(a.chan, b.chan, c.chan);
    lemma_le_trans(a.lock, b.lock, c.lock);
}

proof fn lemma_union_grows<S: OpSet>(
    a: Map<LocV, S>,
    b: Map<LocV, S>,
    c: Map<LocV, S>,
    d: Map<LocV, S>,
)
    requires
        map_le(a, c),
        map_le(b, d),
    ensures
        map_le(map_union(a, b), map_union(c, d)),
{
    let x = map_union(a, b);
    let y = map_union(c, d);
    assert forall|l: LocV| #[trigger] x.contains_key(l) implies y.contains_key(l) && forall|k: int|
        S::is_op(k) && #[trigger] x[l].has(k) ==> y[l].has(k) by {
        assert(a.contains_key(l) ==> c.contains_key(l));
        assert(b.contains_key(l) ==> d.contains_key(l));
        lemma_both(a[l], b[l]);
        lemma_both(c[l], d[l]);
        assert forall|k: int| S::is_op(k) && #[trigger] x[l].has(k) implies y[l].has(k) by {
            assert(both(c[l], d[l]).has(k) == (c[l].has(k) || d[l].has(k)));
            assert(both(a[l], b[l]).has(k) == (a[l].has(k) || b[l].has(k)));
            if a.contains_key(l) && a[l].has(k) {
                assert(c[l].has(k));
            }
            if b.contains_key(l) && b[l].has(k) {
                assert(d[l].has(k));
            }
        }
    }
}

/// The join grows with both sides.
pub proof fn join_grows(a: EffectsV, b: EffectsV, c: EffectsV, d: EffectsV)
    requires
        effects_le(a, c),
        effects_le(b, d),
    ensures
        effects_le(effects_join(a, b), effects_join(c, d)),
{
    lemma_union_grows(a.chan, b.chan, c.chan, d.chan);
    lemma_union_grows(a.lock, b.lock, c.lock, d.lock);
}

proof fn lemma_rebased_grows<S: OpSet>(
    a: Map<LocV, S>,
    b: Map<LocV, S>,
    args: Seq<LocV>,
    fvs: Seq<LocV>,
)
    requires
        map_le(a, b),
    ensures
        map_le(rebased_map(a, args, fvs), rebased_map(b, args, fvs)),
{
    let x = rebased_map(a, args, fvs);
    let y = rebased_map(b, args, fvs);
    assert forall|to: LocV| #[trigger] x.contains_key(to) implies y.contains_key(to) && forall|k: int|
        S::is_op(k) && #[trigger] x[to].has(k) ==> y[to].has(k) by {
        let l = choose|l: LocV| #[trigger] moves(a, args, fvs, l, to);
        assert(moves(b, args, fvs, l, to));
        assert forall|k: int| S::is_op(k) && #[trigger] x[to].has(k) implies y[to].has(k) by {
            S::build_has(|k: int| exists|l: LocV| #[trigger] moves_op(a, args, fvs, l, to, k), k);
            S::build_has(|k: int| exists|l: LocV| #[trigger] moves_op(b, args, fvs, l, to, k), k);
            let l = choose|l: LocV| #[trigger] moves_op(a, args, fvs, l, to, k);
            assert(moves_op(b, args, fvs, l, to, k));
        }
    }
}

/// What a caller sees of a callee grows with what the callee does.
pub proof fn rebase_grows(a: EffectsV, b: EffectsV, args: Seq<LocV>, fvs: Seq<LocV>)
    requires
        effects_le(a, b),
    ensures
        effects_le(effects_rebased(a, args, fvs), effects_rebased(b, args, fvs)),
{
    lemma_rebased_grows(a.chan, b.chan, args, fvs);
    lemma_rebased_grows(a.lock, b.lock, args, fvs);
}

// ---- Instructions ----

/// Whether every function does at least as much in `u` as in `t`.
pub open spec fn table_le(t: TableV, u: TableV) -> bool {
    forall|c: FuncId| effects_le(#[trigger] t.effects_of(c), u.effects_of(c))
}

proof fn lemma_add_grows<S: OpSet>(a: Map<LocV, S>, b: Map<LocV, S>, l: LocV, ops: S)
    requires
        map_le(a, b),
    ensures
        map_le(map_add(a, l, ops), map_add(b, l, ops)),
        map_le(a, map_add(a, l, ops)),
{
    lemma_both(a[l], ops);
    lemma_both(b[l], ops);
    let x = map_add(a, l, ops);
    let y = map_add(b, l, ops);
    assert forall|m: LocV| #[trigger] x.contains_key(m) implies y.contains_key(m) && forall|k: int|
        S::is_op(k) && #[trigger] x[m].has(k) ==> y[m].has(k) by {
        if m == l {
            assert forall|k: int| S::is_op(k) && #[trigger] x[m].has(k) implies y[m].has(k) by {
                assert(both(a[l], ops).has(k) == (a[l].has(k) || ops.has(k)));
                assert(both(b[l], ops).has(k) == (b[l].has(k) || ops.has(k)));
                if a.contains_key(l) && a[l].has(k) {
                    assert(b[l].has(k));
                }
            }
        } else {
            assert(a.contains_key(m));
        }
    }
    assert forall|m: LocV| #[trigger] a.contains_key(m) implies x.contains_key(m) && forall|k: int|
        S::is_op(k) && #[trigger] a[m].has(k) ==> x[m].has(k) by {
        if m == l {
            assert forall|k: int| S::is_op(k) && #[trigger] a[m].has(k) implies x[m].has(k) by {
                assert(both(a[l], ops).has(k) == (a[l].has(k) || ops.has(k)));
            }
        }
    }
}

proof fn lemma_chan_grows(a: EffectsV, b: EffectsV, l: LocV, op: ChanOp)
    requires
        effects_le(a, b),
    ensures
        effects_le(add_chan(a, l, op), add_chan(b, l, op)),
        effects_le(a, add_chan(a, l, op)),
{
    lemma_add_grows(a.chan, b.chan, l, ChanOps::only(op));
}

proof fn lemma_lock_grows(a: EffectsV, b: EffectsV, l: LocV, op: LockOp)
    requires
        effects_le(a, b),
    ensures
        effects_le(add_lock(a, l, op), add_lock(b, l, op)),
        effects_le(a, add_lock(a, l, op)),
{
    lemma_add_grows(a.lock, b.lock, l, LockOps::only(op));
}

proof fn lemma_arms_grow(f: &Function, a: EffectsV, b: EffectsV, arms: Seq<SelectArm>, n: int)
    requires
        effects_le(a, b),
    ensures
        effects_le(add_arms(f, a, arms, n), add_arms(f, b, arms, n)),
        effects_le(a, add_arms(f, a, arms, n)),
    decreases n,
{
    if n > 0 {
        lemma_arms_grow(f, a, b, arms, n - 1);
        let x = add_arms(f, a, arms, n - 1);
        lemma_chan_grows(
            x,
            add_arms(f, b, arms, n - 1),
            resolved(f, arms[n - 1].chan),
            ChanOp::Select,
        );
        le_transitive(a, x, add_arms(f, a, arms, n));
    }
}

proof fn lemma_call_grows(
    f: &Function,
    t: TableV,
    u: TableV,
    a: EffectsV,
    b: EffectsV,
    c: FuncId,
    args: Seq<ValueId>,
)
    requires
        table_le(t, u),
        effects_le(a, b),
    ensures
        effects_le(
            effects_join(a, call_effects(f, t, c, args)),
            effects_join(b, call_effects(f, u, c, args)),
        ),
        effects_le(a, effects_join(a, call_effects(f, t, c, args))),
{
    assert(effects_le(t.effects_of(c), u.effects_of(c)));
    rebase_grows(t.effects_of(c), u.effects_of(c), resolved_all(f, args), fv_slots(f, c));
    join_grows(a, call_effects(f, t, c, args), b, call_effects(f, u, c, args));
    join_monotone(a, call_effects(f, t, c, args));
}

proof fn lemma_go_defer_grows(
    p: &Program,
    f: &Function,
    t: TableV,
    u: TableV,
    a: EffectsV,
    b: EffectsV,
    callee: Callee,
    args: Seq<ValueId>,
    is_defer: bool,
)
    requires
        table_le(t, u),
        effects_le(a, b),
    ensures
        effects_le(
            add_go_defer(p, f, t, a, callee, args, is_defer),
            add_go_defer(p, f, u, b, callee, args, is_defer),
        ),
        effects_le(a, add_go_defer(p, f, t, a, callee, args, is_defer)),
{
    let l = slot(resolved_all(f, args), 0);
    match callee {
        Callee::Builtin(_) => {
            lemma_chan_grows(a, b, l, ChanOp::Close);
        },
        Callee::Static(c) => {
            match lock_kind_of(p.name_of(c)) {
                Some(kind) => {
                    let op = if is_defer {
                        deferred_of(lock_op_of(kind))
                    } else {
                        lock_op_of(kind)
                    };
                    lemma_lock_grows(a, b, l, op);
                },
                None => {
                    lemma_call_grows(f, t, u, a, b, c, args);
                },
            }
        },
        _ => {},
    }
}

proof fn lemma_instr_grows(
    p: &Program,
    f: &Function,
    t: TableV,
    u: TableV,
    a: EffectsV,
    b: EffectsV,
    s: Site,
)
    requires
        table_le(t, u),
        effects_le(a, b),
    ensures
        effects_le(add_instr(p, f, t, a, s), add_instr(p, f, u, b, s)),
        effects_le(a, add_instr(p, f, t, a, s)),
{
    match f.op_at(s) {
        Op::Make { dst, .. } => {
            lemma_chan_grows(a, b, resolved(f, dst), ChanOp::Make);
        },
        Op::Send { chan, .. } => {
            lemma_chan_grows(a, b, resolved(f, chan), ChanOp::Send);
        },
        Op::Recv { chan, .. } => {
            lemma_chan_grows(a, b, resolved(f, chan), ChanOp::Recv);
        },
        Op::CloseChan { chan } => {
            lemma_chan_grows(a, b, resolved(f, chan), ChanOp::Close);
        },
        Op::Select { arms, .. } => {
            lemma_arms_grow(f, a, b, arms@, arms@.len() as int);
        },
        Op::Lock { kind, mu } => {
            lemma_lock_grows(a, b, resolved(f, mu), lock_op_of(kind));
        },
        Op::Call { callee, args, .. } => {
            if let Callee::Static(c) = callee {
                lemma_call_grows(f, t, u, a, b, c, args@);
            }
        },
        Op::Go { callee, args } => {
            let n = spawns_in(f, s.0 as int);
            let x = EffectsV { spawns: a.spawns.max_of(n), ..a };
            let y = EffectsV { spawns: b.spawns.max_of(n), ..b };
            assert(effects_le(a, x));
            assert(effects_le(x, y));
            lemma_go_defer_grows(p, f, t, u, x, y, callee, args@, false);
            le_transitive(a, x, add_instr(p, f, t, a, s));
        },
        Op::Defer { callee, args } => {
            lemma_go_defer_grows(p, f, t, u, a, b, callee, args@, true);
        },
        _ => {},
    }
}

proof fn lemma_own_grow(p: &Program, f: &Function, t: TableV, u: TableV, k: int)
    requires
        table_le(t, u),
    ensures
        effects_le(own_effects(p, f, t, k), own_effects(p, f, u, k)),
    decreases k,
{
    if k > 0 {
        lemma_own_grow(p, f, t, u, k - 1);
        lemma_instr_grows(
            p,
            f,
            t,
            u,
            own_effects(p, f, t, k - 1),
            own_effects(p, f, u, k - 1),
            f.sites()[k - 1],
        );
    }
}

proof fn lemma_dispatched_grow(
    f: &Function,
    t: TableV,
    u: TableV,
    a: EffectsV,
    b: EffectsV,
    callees: Seq<FuncId>,
    k: int,
)
    requires
        table_le(t, u),
        effects_le(a, b),
    ensures
        effects_le(add_dispatched(f, t, a, callees, k), add_dispatched(f, u, b, callees, k)),
        effects_le(a, add_dispatched(f, t, a, callees, k)),
    decreases k,
{
    if k > 0 {
        lemma_dispatched_grow(f, t, u, a, b, callees, k - 1);
        let c = callees[k - 1];
        let none = Seq::<LocV>::empty();
        let x = add_dispatched(f, t, a, callees, k - 1);
        let y = add_dispatched(f, u, b, callees, k - 1);
        assert(effects_le(t.effects_of(c), u.effects_of(c)));
        rebase_grows(t.effects_of(c), u.effects_of(c), none, none);
        join_grows(
            x,
            effects_rebased(t.effects_of(c), none, none),
            y,
            effects_rebased(u.effects_of(c), none, none),
        );
        join_monotone(x, effects_rebased(t.effects_of(c), none, none));
        le_transitive(
            a,
            x,
            effects_join(x, effects_rebased(t.effects_of(c), none, none)),
        );
    }
}

/// Collecting is monotone: where callees do at least as much, so does the caller.
pub proof fn collecting_is_monotone(
    p: &Program,
    id: FuncId,
    graph: &CallGraph,
    t: TableV,
    u: TableV,
)
    requires
        table_le(t, u),
    ensures
        effects_le(collected(p, id, graph, t), collected(p, id, graph, u)),
{
    if let Some(f) = p.body(id) {
        let n = f.sites().len() as int;
        let callees = graph.callees_of(id);
        lemma_own_grow(p, &f, t, u, n);
        lemma_dispatched_grow(
            &f,
            t,
            u,
            own_effects(p, &f, t, n),
            own_effects(p, &f, u, n),
            callees,
            callees.len() as int,
        );
    }
}

// ---- Rounds ----

/// What `f` does according to one more analysis: what is collected, or anything where it fails.
pub open spec fn next_effects<C: Checker>(
    p: &Program,
    g: &CallGraph,
    f: FuncId,
    cs: Seq<C>,
    m: AnswersV,
    t: TableV,
) -> EffectsV {
    if analysis_fails(p, f, t, cs, m) {
        effects_top()
    } else {
        collected(p, f, g, t)
    }
}

/// Whether one more analysis would only add to what the members do.
pub open spec fn rising<C: Checker>(
    p: &Program,
    g: &CallGraph,
    members: Seq<FuncId>,
    cs: Seq<C>,
    m: AnswersV,
    t: TableV,
) -> bool {
    forall|i: int|
        0 <= i < members.len() ==> effects_le(
            t.effects_of(#[trigger] members[i]),
            next_effects(p, g, members[i], cs, m, t),
        )
}

/// Whether the analysis of each member fails whatever the summaries are, or never.
pub open spec fn steady<C: Checker>(
    p: &Program,
    members: Seq<FuncId>,
    cs: Seq<C>,
    m: AnswersV,
) -> bool {
    forall|i: int, t: TableV, u: TableV|
        0 <= i < members.len() ==> #[trigger] analysis_fails(p, members[i], t, cs, m)
            == #[trigger] analysis_fails(p, members[i], u, cs, m)
}

proof fn lemma_set_grows(t: TableV, f: FuncId, s: SummaryV)
    requires
        f.0 < t.entries.len(),
        effects_le(t.effects_of(f), s.effects),
    ensures
        table_le(t, with_summary(t, f, s)),
        with_summary(t, f, s).effects_of(f) == s.effects,
        forall|c: FuncId|
            c != f ==> with_summary(t, f, s).effects_of(c) == #[trigger] t.effects_of(c),
{
    let u = with_summary(t, f, s);
    assert forall|c: FuncId| effects_le(#[trigger] t.effects_of(c), u.effects_of(c)) && (c != f
        ==> u.effects_of(c) == t.effects_of(c)) by {
        if c.0 < t.entries.len() && c.0 != f.0 {
            assert(u.entries[c.0 as int] == t.entries[c.0 as int]);
        }
    }
}

proof fn lemma_started_empty(t: TableV, members: Seq<FuncId>, n: nat)
    requires
        n <= members.len(),
        members_fit(members, t.entries.len()),
    ensures
        started(t, members, n).entries.len() == t.entries.len(),
        forall|i: int|
            0 <= i < n ==> started(t, members, n).effects_of(#[trigger] members[i]) == effects_empty(),
    decreases n,
{
    if n > 0 {
        lemma_started_empty(t, members, (n - 1) as nat);
        let b = started(t, members, (n - 1) as nat);
        let u = started(t, members, n);
        let f = members[n - 1];
        assert forall|i: int| 0 <= i < n implies u.effects_of(#[trigger] members[i])
            == effects_empty() by {
            if members[i] != f {
                assert(u.entries[members[i].0 as int] == b.entries[members[i].0 as int]);
            }
        }
    }
}

/// A component starts from no effects, so that collecting can only add.
pub proof fn start_is_rising<C: Checker>(
    p: &Program,
    g: &CallGraph,
    members: Seq<FuncId>,
    cs: Seq<C>,
    m: AnswersV,
    t: TableV,
)
    requires
        members_fit(members, t.entries.len()),
    ensures
        rising(p, g, members, cs, m, started(t, members, members.len())),
{
    lemma_started_empty(t, members, members.len());
}

/// From there on the effects of a component's members only grow, member by member and round by
/// round, unless an analysis fails in one round and not in another.
pub proof fn rounds_only_add<C: Checker>(
    p: &Program,
    g: &CallGraph,
    members: Seq<FuncId>,
    cs: Seq<C>,
    m: AnswersV,
    anns: &Annotations,
    s: ComponentV,
    n: nat,
)
    requires
        n <= members.len(),
        members_fit(members, s.table.entries.len()),
        steady(p, members, cs, m),
        rising(p, g, members, cs, m, s.table),
    ensures
        ({
            let r = round_upto(p, g, members, cs, m, anns, s, n);
            &&& table_le(s.table, r.table)
            &&& rising(p, g, members, cs, m, r.table)
            &&& r.table.entries.len() == s.table.entries.len()
        }),
    decreases n,
{
    if n > 0 {
        rounds_only_add(p, g, members, cs, m, anns, s, (n - 1) as nat);
        let b = round_upto(p, g, members, cs, m, anns, s, (n - 1) as nat);
        let r = round_upto(p, g, members, cs, m, anns, s, n);
        let f = members[n - 1];
        let new = function_summary(p, g, f, b.table, cs, m, anns.of(f));
        assert(new.effects == next_effects(p, g, f, cs, m, b.table));
        assert(effects_le(b.table.effects_of(f), new.effects));
        lemma_set_grows(b.table, f, new);
        assert(table_le(b.table, r.table));
        assert forall|c: FuncId| effects_le(
            #[trigger] s.table.effects_of(c),
            r.table.effects_of(c),
        ) by {
            assert(effects_le(b.table.effects_of(c), r.table.effects_of(c)));
            le_transitive(s.table.effects_of(c), b.table.effects_of(c), r.table.effects_of(c));
        }
        assert forall|i: int| 0 <= i < members.len() implies effects_le(
            r.table.effects_of(#[trigger] members[i]),
            next_effects(p, g, members[i], cs, m, r.table),
        ) by {
            collecting_is_monotone(p, members[i], g, b.table, r.table);
            assert(analysis_fails(p, members[i], b.table, cs, m) == analysis_fails(
                p,
                members[i],
                r.table,
                cs,
                m,
            ));
            le_transitive(
                r.table.effects_of(members[i]),
                next_effects(p, g, members[i], cs, m, b.table),
                next_effects(p, g, members[i], cs, m, r.table),
            );
        }
    }
}

// ---- Nothing is missed ----

proof fn lemma_own_keep(p: &Program, f: &Function, t: TableV, i: int, k: int)
    requires
        0 <= i <= k,
    ensures
        effects_le(own_effects(p, f, t, i), own_effects(p, f, t, k)),
    decreases k,
{
    if i < k {
        lemma_own_keep(p, f, t, i, k - 1);
        let b = own_effects(p, f, t, k - 1);
        lemma_instr_grows(p, f, t, t, b, b, f.sites()[k - 1]);
        le_transitive(own_effects(p, f, t, i), b, own_effects(p, f, t, k));
    }
}

/// Whatever a callee named in a call does, the caller does too, at the places that the call's
/// arguments and the closure's bindings lead to.
pub proof fn calls_are_covered(
    p: &Program,
    id: FuncId,
    graph: &CallGraph,
    t: TableV,
    i: int,
)
    requires
        p.body(id) is Some,
        0 <= i < p.body(id).unwrap().sites().len(),
    ensures
        ({
            let f = p.body(id).unwrap();
            f.op_at(f.sites()[i]) matches Op::Call { callee: Callee::Static(c), args, .. } ==> effects_le(
                call_effects(&f, t, c, args@),
                collected(p, id, graph, t),
            )
        }),
{
    let f = p.body(id).unwrap();
    let n = f.sites().len() as int;
    if let Op::Call { callee: Callee::Static(c), args, .. } = f.op_at(f.sites()[i]) {
        let callees = graph.callees_of(id);
        let own = own_effects(p, &f, t, n);
        let e = call_effects(&f, t, c, args@);
        join_monotone(own_effects(p, &f, t, i), e);
        lemma_own_keep(p, &f, t, i + 1, n);
        le_transitive(e, own_effects(p, &f, t, i + 1), own);
        lemma_dispatched_grow(&f, t, t, own, own, callees, callees.len() as int);
        le_transitive(e, own, collected(p, id, graph, t));
    }
}

proof fn lemma_dispatched_keep(
    f: &Function,
    t: TableV,
    e: EffectsV,
    callees: Seq<FuncId>,
    i: int,
    k: int,
)
    requires
        0 <= i < k,
        !names_statically(f, callees[i], f.sites().len() as int),
    ensures
        effects_le(
            effects_rebased(t.effects_of(callees[i]), Seq::empty(), Seq::empty()),
            add_dispatched(f, t, e, callees, k),
        ),
    decreases k,
{
    let x = effects_rebased(t.effects_of(callees[i]), Seq::empty(), Seq::empty());
    let b = add_dispatched(f, t, e, callees, k - 1);
    if i < k - 1 {
        lemma_dispatched_keep(f, t, e, callees, i, k - 1);
        let y = effects_rebased(t.effects_of(callees[k - 1]), Seq::empty(), Seq::empty());
        join_monotone(b, y);
        le_transitive(x, b, effects_join(b, y));
    } else {
        join_monotone(b, x);
    }
}

/// Whatever a callee does that is reached by dispatch only, the caller does too, at places that
/// do not depend on arguments.
pub proof fn dispatch_is_covered(
    p: &Program,
    id: FuncId,
    graph: &CallGraph,
    t: TableV,
    i: int,
)
    requires
        p.body(id) is Some,
        0 <= i < graph.callees_of(id).len(),
        ({
            let f = p.body(id).unwrap();
            !names_statically(&f, graph.callees_of(id)[i], f.sites().len() as int)
        }),
    ensures
        effects_le(
            effects_rebased(
                t.effects_of(graph.callees_of(id)[i]),
                Seq::empty(),
                Seq::empty(),
            ),
            collected(p, id, graph, t),
        ),
{
    let f = p.body(id).unwrap();
    let callees = graph.callees_of(id);
    lemma_dispatched_keep(
        &f,
        t,
        own_effects(p, &f, t, f.sites().len() as int),
        callees,
        i,
        callees.len() as int,
    );
}

// ---- The cap ----

/// Whether every location of `m` is capped.
pub open spec fn all_capped<S: OpSet>(m: Map<LocV, S>) -> bool {
    forall|l: LocV| #[trigger] m.contains_key(l) ==> loc_capped(l) == l
}

/// Whether every location of `e` is capped.
pub open spec fn within_cap(e: EffectsV) -> bool {
    all_capped(e.chan) && all_capped(e.lock)
}

proof fn lemma_rebased_capped(e: EffectsV, args: Seq<LocV>, fvs: Seq<LocV>)
    requires
        within_cap(e),
    ensures
        within_cap(effects_rebased(e, args, fvs)),
{
    let r = effects_rebased(e, args, fvs);
    assert forall|to: LocV| #[trigger] r.chan.contains_key(to) implies loc_capped(to) == to by {
        let l = choose|l: LocV| #[trigger] moves(e.chan, args, fvs, l, to);
        rebase_keeps_cap(l, args, fvs);
    }
    assert forall|to: LocV| #[trigger] r.lock.contains_key(to) implies loc_capped(to) == to by {
        let l = choose|l: LocV| #[trigger] moves(e.lock, args, fvs, l, to);
        rebase_keeps_cap(l, args, fvs);
    }
}

proof fn lemma_slot_capped(f: &Function, args: Seq<ValueId>)
    ensures
        loc_capped(slot(resolved_all(f, args), 0)) == slot(resolved_all(f, args), 0),
{
    if args.len() > 0 {
        resolve_within_cap(f, args[0]);
    }
}

proof fn lemma_arms_capped(f: &Function, e: EffectsV, arms: Seq<SelectArm>, n: int)
    requires
        within_cap(e),
    ensures
        within_cap(add_arms(f, e, arms, n)),
    decreases n,
{
    if n > 0 {
        lemma_arms_capped(f, e, arms, n - 1);
        resolve_within_cap(f, arms[n - 1].chan);
    }
}

proof fn lemma_instr_capped(p: &Program, f: &Function, t: TableV, e: EffectsV, s: Site)
    requires
        within_cap(e),
        forall|c: FuncId| within_cap(#[trigger] t.effects_of(c)),
    ensures
        within_cap(add_instr(p, f, t, e, s)),
{
    match f.op_at(s) {
        Op::Make { dst, .. } => {
            resolve_within_cap(f, dst);
        },
        Op::Send { chan, .. } => {
            resolve_within_cap(f, chan);
        },
        Op::Recv { chan, .. } => {
            resolve_within_cap(f, chan);
        },
        Op::CloseChan { chan } => {
            resolve_within_cap(f, chan);
        },
        Op::Select { arms, .. } => {
            lemma_arms_capped(f, e, arms@, arms@.len() as int);
        },
        Op::Lock { mu, .. } => {
            resolve_within_cap(f, mu);
        },
        Op::Call { callee, args, .. } => {
            if let Callee::Static(c) = callee {
                lemma_rebased_capped(t.effects_of(c), resolved_all(f, args@), fv_slots(f, c));
            }
        },
        Op::Go { callee, args } => {
            lemma_slot_capped(f, args@);
            if let Callee::Static(c) = callee {
                lemma_rebased_capped(t.effects_of(c), resolved_all(f, args@), fv_slots(f, c));
            }
        },
        Op::Defer { callee, args } => {
            lemma_slot_capped(f, args@);
            if let Callee::Static(c) = callee {
                lemma_rebased_capped(t.effects_of(c), resolved_all(f, args@), fv_slots(f, c));
            }
        },
        _ => {},
    }
}

proof fn lemma_own_capped(p: &Program, f: &Function, t: TableV, k: int)
    requires
        forall|c: FuncId| within_cap(#[trigger] t.effects_of(c)),
    ensures
        within_cap(own_effects(p, f, t, k)),
    decreases k,
{
    if k > 0 {
        lemma_own_capped(p, f, t, k - 1);
        lemma_instr_capped(p, f, t, own_effects(p, f, t, k - 1), f.sites()[k - 1]);
    }
}

proof fn lemma_dispatched_capped(
    f: &Function,
    t: TableV,
    e: EffectsV,
    callees: Seq<FuncId>,
    k: int,
)
    requires
        within_cap(e),
        forall|c: FuncId| within_cap(#[trigger] t.effects_of(c)),
    ensures
        within_cap(add_dispatched(f, t, e, callees, k)),
    decreases k,
{
    if k > 0 {
        lemma_dispatched_capped(f, t, e, callees, k - 1);
        lemma_rebased_capped(t.effects_of(callees[k - 1]), Seq::empty(), Seq::empty());
    }
}

/// Where the callees' access paths are within the cap, so are the caller's.
pub proof fn collecting_keeps_cap(p: &Program, id: FuncId, graph: &CallGraph, t: TableV)
    requires
        forall|c: FuncId| within_cap(#[trigger] t.effects_of(c)),
    ensures
        within_cap(collected(p, id, graph, t)),
{
    if let Some(f) = p.body(id) {
        let n = f.sites().len() as int;
        let callees = graph.callees_of(id);
        lemma_own_capped(p, &f, t, n);
        lemma_dispatched_capped(&f, t, own_effects(p, &f, t, n), callees, callees.len() as int);
    }
}

} // verus!
