//! Goroutines that wait for nobody: what is reported, told from the instructions of the spawned
//! function and the operations in the spawner's effects.

use vstd::prelude::*;
use crate::checker::ObligationV;
use crate::effects::{loc_unknown, resolved, EffectsV, LocV, RootV};
use crate::encode::{encoding_with, opt_seq, EncodedV};
use crate::escape::escaping;
use crate::graph::{reaches_plus, succ_graph};
use crate::ir::{Callee, FuncId, Function, Op, Program, SelectArm, Site, ValueId};
use crate::leak::{
    all_made, arm_counterpart, arms_unbuffered, body_candidate, body_candidates, buffer_full,
    candidates_upto, capacity, channels_escape, conjoined, frame_of, go_candidates, has_unblocker,
    hop_at, hop_candidates, hops_candidates, leak_candidates, leak_obligation, leak_obligations,
    leak_obligations_upto, prefixed_query, seen_arms, seen_through, CandidateV, CandKind, FrameV,
    Hop, HopKind,
};
use crate::query::QueryV;
use crate::shared::clause_terms;
use crate::summary::TableV;
use crate::term::TermV;

verus! {

// ---- Counterparts ----

/// Whether the effects hold something at `l` that ends a wait to receive there: a send, a
/// select or a close.
pub open spec fn feeds(env: EffectsV, l: LocV) -> bool {
    env.chan.contains_key(l) && (env.chan[l].send || env.chan[l].select || env.chan[l].close)
}

/// Whether the effects hold something at `l` that ends a wait to send there: a receive, a
/// select or a close.
pub open spec fn drains(env: EffectsV, l: LocV) -> bool {
    env.chan.contains_key(l) && (env.chan[l].recv || env.chan[l].select || env.chan[l].close)
}

/// Whether the effects hold something that ends a wait in an arm of a select: what ends a wait
/// to send or to receive, but no select on the arm's own channel, for it may be the very one
/// that waits. Direction 1 sends.
pub open spec fn arm_answered(env: EffectsV, arm: (u32, LocV)) -> bool {
    let (dir, l) = arm;
    if dir == 1 {
        (env.chan.contains_key(l) && (env.chan[l].recv || env.chan[l].close)) || drains(
            env,
            loc_unknown(),
        )
    } else {
        (env.chan.contains_key(l) && (env.chan[l].send || env.chan[l].close)) || feeds(
            env,
            loc_unknown(),
        )
    }
}

/// Nothing is reported of a goroutine that waits to receive where the spawner's effects hold a
/// send, a select or a close at the channel or at an unknown one, nor of one that waits to
/// send where they hold a receive, a select or a close there, nor of one that waits in a
/// select of which an arm is answered.
pub proof fn answered_waits_are_not_reported(
    p: &Program,
    f: FuncId,
    func: &Function,
    e: EncodedV,
    t: TableV,
    c: CandidateV,
    l: LocV,
    i: int,
)
    requires
        l == c.spawner_loc || l == loc_unknown(),
        match c.kind {
            CandKind::Recv => feeds(t.summary(f).effects, l),
            CandKind::Send => drains(t.summary(f).effects, l),
            CandKind::Select => 0 <= i < c.arm_locs.len() && arm_answered(
                t.summary(f).effects,
                c.arm_locs[i],
            ),
        },
    ensures
        leak_obligation(p, f, func, e, t, c) is None,
{
    if c.kind == CandKind::Select {
        let a = c.arm_locs[i];
        assert(arm_counterpart(t.summary(f).effects, a.1, a.0));
    }
}

// ---- What is reported ----

/// The place of `chan` of the spawned function `g` as the spawner sees it.
pub open spec fn for_spawner(
    f: &Function,
    c: FuncId,
    args: Seq<ValueId>,
    g: &Function,
    chan: ValueId,
) -> LocV {
    seen_through(resolved(g, chan), frame_of(f, c, args))
}

/// Whether the spawner made the channel at `l` and keeps it to itself.
pub open spec fn kept(f: &Function, l: LocV) -> bool {
    l.root matches RootV::Alloc(a) && !escaping(f, ValueId(a))
}

/// The constant capacity of the channel at `l`.
pub open spec fn room(f: &Function, l: LocV) -> Option<u64> {
    match l.root {
        RootV::Alloc(a) => capacity(f, ValueId(a)),
        _ => None,
    }
}

/// Whether a receive on `chan` may wait forever: the spawner made the channel, keeps it to
/// itself and never feeds it.
pub open spec fn receive_waits(
    env: EffectsV,
    f: &Function,
    c: FuncId,
    args: Seq<ValueId>,
    g: &Function,
    chan: ValueId,
) -> bool {
    let l = for_spawner(f, c, args, g, chan);
    kept(f, l) && room(f, l) is Some && !feeds(env, l) && !feeds(env, loc_unknown())
}

/// Whether a send on `chan` may wait forever: the spawner made the channel, keeps it to itself
/// and never drains it.
pub open spec fn send_waits(
    env: EffectsV,
    f: &Function,
    c: FuncId,
    args: Seq<ValueId>,
    g: &Function,
    chan: ValueId,
) -> bool {
    let l = for_spawner(f, c, args, g, chan);
    kept(f, l) && room(f, l) is Some && !drains(env, l) && !drains(env, loc_unknown())
}

/// An arm as the spawner sees it.
pub open spec fn arm_for_spawner(
    f: &Function,
    c: FuncId,
    args: Seq<ValueId>,
    g: &Function,
    arm: SelectArm,
) -> (u32, LocV) {
    (arm.dir, for_spawner(f, c, args, g, arm.chan))
}

/// Whether a select may wait forever: the spawner made the channels of all its arms without a
/// buffer, keeps them to itself, and answers none.
pub open spec fn select_waits(
    env: EffectsV,
    f: &Function,
    c: FuncId,
    args: Seq<ValueId>,
    g: &Function,
    arms: Seq<SelectArm>,
) -> bool {
    arms.len() > 0 && forall|i: int|
        0 <= i < arms.len() ==> {
            let a = arm_for_spawner(f, c, args, g, #[trigger] arms[i]);
            kept(f, a.1) && room(f, a.1) == Some(0u64) && !arm_answered(env, a)
        }
}

/// What is asked of an operation that may wait: whether the spawner reaches the `go` statement
/// and the spawned function the operation, with `extra`.
pub open spec fn wait_query(
    t: TableV,
    f: FuncId,
    e: EncodedV,
    c: FuncId,
    ge: EncodedV,
    go: Site,
    s: Site,
    extra: Seq<TermV>,
) -> Option<QueryV> {
    match prefixed_query(
        ge.reach(s.0 as int, clause_terms(t.summary(c).requires_) + extra),
        "s_"@,
    ) {
        Some(q) => Some(conjoined(e.reach(go.0 as int, clause_terms(t.summary(f).requires_)), q)),
        None => None,
    }
}

/// What is reported of the instruction at `s` of `g`, which the `go` statement at `go` spawns.
pub open spec fn wait_reported(
    p: &Program,
    f: FuncId,
    func: &Function,
    e: EncodedV,
    t: TableV,
    go: Site,
    c: FuncId,
    args: Seq<ValueId>,
    g: &Function,
    ge: EncodedV,
    s: Site,
    o: ObligationV,
) -> bool {
    let env = t.summary(f).effects;
    &&& o.pos == func.pos_at(go)
    &&& match g.op_at(s) {
        Op::Recv { chan, .. } => {
            &&& receive_waits(env, func, c, args, g, chan)
            &&& o.tag == "chan-recv-leak"@
            &&& o.message == "goroutine "@ + p.name_of(c)
                + " may block forever: receive on a spawner-created channel with no send, close, or select"@
            &&& wait_query(t, f, e, c, ge, go, s, Seq::empty()) == Some(o.query)
        },
        Op::Send { chan, .. } => {
            let n = room(func, for_spawner(func, c, args, g, chan)).unwrap();
            let full = buffer_full(g, ge, resolved(g, chan), s.0 as int, s.1 as int, n);
            &&& send_waits(env, func, c, args, g, chan)
            &&& o.tag == "chan-send-leak"@
            &&& o.message == "goroutine "@ + p.name_of(c)
                + " may block forever: send on a spawner-created channel with no receive, close, or select in the spawning environment"@
            &&& if n == 0 {
                wait_query(t, f, e, c, ge, go, s, Seq::empty()) == Some(o.query)
            } else {
                &&& !reaches_plus(succ_graph(g), s.0 as int, s.0 as int)
                &&& full matches Some(b) && wait_query(t, f, e, c, ge, go, s, seq![b]) == Some(
                    o.query,
                )
            }
        },
        Op::Select { arms, blocking, .. } => {
            &&& blocking
            &&& select_waits(env, func, c, args, g, arms@)
            &&& o.tag == "chan-select-leak"@
            &&& o.message == "goroutine "@ + p.name_of(c)
                + " may block forever: blocking select whose channels have no counterpart operations"@
            &&& wait_query(t, f, e, c, ge, go, s, Seq::empty()) == Some(o.query)
        },
        _ => false,
    }
}

/// Whether `o` is what is reported of instruction `j` of what `go` statement `i` spawns.
pub open spec fn reported_at(
    p: &Program,
    f: FuncId,
    func: &Function,
    e: EncodedV,
    t: TableV,
    i: int,
    j: int,
    o: ObligationV,
) -> bool {
    0 <= i < func.sites().len() && match func.op_at(func.sites()[i]) {
        Op::Go { callee: Callee::Static(c), args } => match (p.body(c), encoding_with(p, c, t)) {
            (Some(g), Ok(ge)) => 0 <= j < g.sites().len() && wait_reported(
                p,
                f,
                func,
                e,
                t,
                func.sites()[i],
                c,
                args@,
                &g,
                ge,
                g.sites()[j],
                o,
            ),
            _ => false,
        },
        _ => false,
    }
}

proof fn lemma_obligation(
    p: &Program,
    f: FuncId,
    func: &Function,
    e: EncodedV,
    t: TableV,
    go: Site,
    c: FuncId,
    args: Seq<ValueId>,
    g: Function,
    s: Site,
    o: ObligationV,
)
    requires
        p.body(c) == Some(g),
        g.has_site(s),
    ensures
        ({
            let b = body_candidate(func, go, c, None, &g, None, frame_of(func, c, args), s);
            let reported = match encoding_with(p, c, t) {
                Ok(ge) => wait_reported(p, f, func, e, t, go, c, args, &g, ge, s, o),
                Err(_) => false,
            };
            (b matches Some(cand) && leak_obligation(p, f, func, e, t, cand) == Some(o))
                == reported
        }),
{
    let env = t.summary(f).effects;
    let b = body_candidate(func, go, c, None, &g, None, frame_of(func, c, args), s);
    let pre = clause_terms(t.summary(c).requires_);
    assert(pre + Seq::<TermV>::empty() =~= pre);
    match g.op_at(s) {
        Op::Send { chan, .. } => {
            if let Some(cand) = b {
                if let Ok(ge) = encoding_with(p, c, t) {
                    if let Some(n) = room(func, for_spawner(func, c, args, &g, chan)) {
                        if let Some(x) = buffer_full(
                            &g,
                            ge,
                            resolved(&g, chan),
                            s.0 as int,
                            s.1 as int,
                            n,
                        ) {
                            assert(pre.push(x) =~= pre + seq![x]);
                        }
                    }
                }
            }
        },
        Op::Select { arms, blocking, .. } => {
            let frame = frame_of(func, c, args);
            let at = seen_arms(&g, None, frame, arms@);
            assert forall|i: int| 0 <= i < arms@.len() implies #[trigger] at[i] == arm_for_spawner(
                func,
                c,
                args,
                &g,
                arms@[i],
            ) by {}
            if select_waits(env, func, c, args, &g, arms@) && blocking {
                assert forall|i: int| 0 <= i < at.len() implies (#[trigger] at[i]).1.root is Alloc
                    && !(match at[i].1.root {
                    RootV::Alloc(a) => escaping(func, ValueId(a)),
                    _ => true,
                }) && !arm_counterpart(env, at[i].1, at[i].0) by {
                    let a = arm_for_spawner(func, c, args, &g, arms@[i]);
                    assert(at[i] == a);
                }
                assert(all_made(at));
                let cand = b.unwrap();
                assert(!channels_escape(func, cand));
                assert(!has_unblocker(env, cand));
                assert(arms_unbuffered(func, at)) by {
                    assert forall|i: int| 0 <= i < at.len() implies ((#[trigger] at[i]).1.root
                        matches RootV::Alloc(a) && capacity(func, ValueId(a)) == Some(0u64)) by {
                        let a = arm_for_spawner(func, c, args, &g, arms@[i]);
                        assert(at[i] == a);
                    }
                }
            }
            if let Some(cand) = b {
                if leak_obligation(p, f, func, e, t, cand) == Some(o) {
                    assert(cand.arm_locs == at);
                    assert forall|i: int| 0 <= i < arms@.len() implies {
                        let a = arm_for_spawner(func, c, args, &g, #[trigger] arms@[i]);
                        kept(func, a.1) && room(func, a.1) == Some(0u64) && !arm_answered(env, a)
                    } by {
                        assert(at[i] == arm_for_spawner(func, c, args, &g, arms@[i]));
                        assert(at[i].1.root is Alloc);
                        assert(!arm_counterpart(env, at[i].1, at[i].0));
                    }
                }
            }
        },
        _ => {},
    }
}

/// What is in a concatenation is in one of its parts.
pub proof fn lemma_in_both<T>(a: Seq<T>, b: Seq<T>, x: T)
    ensures
        (a + b).contains(x) == (a.contains(x) || b.contains(x)),
{
    if (a + b).contains(x) {
        let i = choose|i: int| 0 <= i < (a + b).len() && (a + b)[i] == x;
        if i < a.len() {
            assert(a[i] == x);
        } else {
            assert(b[i - a.len()] == x);
        }
    }
    if a.contains(x) {
        let i = choose|i: int| 0 <= i < a.len() && a[i] == x;
        assert((a + b)[i] == x);
    }
    if b.contains(x) {
        let i = choose|i: int| 0 <= i < b.len() && b[i] == x;
        assert((a + b)[a.len() + i] == x);
    }
}

/// What is there is the only element.
pub proof fn lemma_in_opt<T>(o: Option<T>, x: T)
    ensures
        opt_seq(o).contains(x) == (o == Some(x)),
{
    if o == Some(x) {
        assert(opt_seq(o)[0] == x);
    }
}

/// Whether instruction `j` of the spawned function makes candidate `cand`.
spec fn made_by(
    f: &Function,
    go: Site,
    c: FuncId,
    hop: Option<Hop>,
    g: &Function,
    inner: Option<FrameV>,
    outer: FrameV,
    j: int,
    cand: CandidateV,
) -> bool {
    0 <= j < g.sites().len() && body_candidate(f, go, c, hop, g, inner, outer, g.sites()[j])
        == Some(cand)
}

proof fn lemma_body(
    f: &Function,
    go: Site,
    c: FuncId,
    hop: Option<Hop>,
    g: &Function,
    inner: Option<FrameV>,
    outer: FrameV,
    k: int,
    cand: CandidateV,
)
    requires
        0 <= k <= g.sites().len(),
    ensures
        body_candidates(f, go, c, hop, g, inner, outer, k).contains(cand) == exists|j: int|
            j < k && #[trigger] made_by(f, go, c, hop, g, inner, outer, j, cand),
    decreases k,
{
    if k > 0 {
        lemma_body(f, go, c, hop, g, inner, outer, k - 1, cand);
        let last = body_candidate(f, go, c, hop, g, inner, outer, g.sites()[k - 1]);
        lemma_in_both(
            body_candidates(f, go, c, hop, g, inner, outer, k - 1),
            opt_seq(last),
            cand,
        );
        lemma_in_opt(last, cand);
        assert(made_by(f, go, c, hop, g, inner, outer, k - 1, cand) == (last == Some(cand)));
        if exists|j: int| j < k && #[trigger] made_by(f, go, c, hop, g, inner, outer, j, cand) {
            let j = choose|j: int|
                j < k && #[trigger] made_by(f, go, c, hop, g, inner, outer, j, cand);
            assert(j < k - 1 || j == k - 1);
        }
    }
}

proof fn lemma_hops(
    p: &Program,
    f: &Function,
    go: Site,
    c: FuncId,
    g: &Function,
    outer: FrameV,
    k: int,
    cand: CandidateV,
)
    requires
        0 <= k <= g.sites().len(),
    ensures
        hops_candidates(p, f, go, c, g, outer, k).contains(cand) ==> cand.hop is Some,
    decreases k,
{
    if k > 0 {
        lemma_hops(p, f, go, c, g, outer, k - 1, cand);
        let s = g.sites()[k - 1];
        let last = hop_candidates(p, f, go, c, g, outer, s);
        lemma_in_both(hops_candidates(p, f, go, c, g, outer, k - 1), last, cand);
        if last.contains(cand) {
            let (hop, args) = hop_at(g, s).unwrap();
            let h = p.body(hop.helper).unwrap();
            let inner = Some(frame_of(g, hop.helper, args));
            lemma_body(
                f,
                go,
                c,
                Some(hop),
                &h,
                inner,
                outer,
                h.sites().len() as int,
                cand,
            );
            let j = choose|j: int|
                j < h.sites().len() && #[trigger] made_by(
                    f,
                    go,
                    c,
                    Some(hop),
                    &h,
                    inner,
                    outer,
                    j,
                    cand,
                );
            assert(made_by(f, go, c, Some(hop), &h, inner, outer, j, cand));
        }
    }
}

/// Whether instruction `j` of what `go` statement `i` spawns makes candidate `cand`.
spec fn spawned_by(p: &Program, f: &Function, i: int, j: int, cand: CandidateV) -> bool {
    0 <= i < f.sites().len() && match f.op_at(f.sites()[i]) {
        Op::Go { callee: Callee::Static(c), args } => match p.body(c) {
            Some(g) => made_by(
                f,
                f.sites()[i],
                c,
                None,
                &g,
                None,
                frame_of(f, c, args@),
                j,
                cand,
            ),
            None => false,
        },
        _ => false,
    }
}

proof fn lemma_go(p: &Program, f: &Function, i: int, cand: CandidateV)
    requires
        0 <= i < f.sites().len(),
        cand.hop is None,
    ensures
        go_candidates(p, f, f.sites()[i]).contains(cand) == exists|j: int| #[trigger]
            spawned_by(p, f, i, j, cand),
{
    let s = f.sites()[i];
    match f.op_at(s) {
        Op::Go { callee: Callee::Static(c), args } => {
            if let Some(g) = p.body(c) {
                let outer = frame_of(f, c, args@);
                let n = g.sites().len() as int;
                lemma_body(f, s, c, None, &g, None, outer, n, cand);
                lemma_hops(p, f, s, c, &g, outer, n, cand);
                lemma_in_both(
                    body_candidates(f, s, c, None, &g, None, outer, n),
                    hops_candidates(p, f, s, c, &g, outer, n),
                    cand,
                );
                if exists|j: int|
                    j < n && #[trigger] made_by(f, s, c, None, &g, None, outer, j, cand) {
                    let j = choose|j: int|
                        j < n && #[trigger] made_by(f, s, c, None, &g, None, outer, j, cand);
                    assert(spawned_by(p, f, i, j, cand));
                }
                if exists|j: int| #[trigger] spawned_by(p, f, i, j, cand) {
                    let j = choose|j: int| #[trigger] spawned_by(p, f, i, j, cand);
                    assert(made_by(f, s, c, None, &g, None, outer, j, cand));
                    assert(j < n);
                }
            } else {
                assert(go_candidates(p, f, s).len() == 0);
            }
        },
        _ => {
            assert(go_candidates(p, f, s).len() == 0);
        },
    }
}

proof fn lemma_upto(p: &Program, f: &Function, k: int, cand: CandidateV)
    requires
        0 <= k <= f.sites().len(),
        cand.hop is None,
    ensures
        candidates_upto(p, f, k).contains(cand) == exists|i: int, j: int|
            i < k && #[trigger] spawned_by(p, f, i, j, cand),
    decreases k,
{
    if k > 0 {
        lemma_upto(p, f, k - 1, cand);
        lemma_go(p, f, k - 1, cand);
        lemma_in_both(
            candidates_upto(p, f, k - 1),
            go_candidates(p, f, f.sites()[k - 1]),
            cand,
        );
        if candidates_upto(p, f, k).contains(cand) {
            if candidates_upto(p, f, k - 1).contains(cand) {
                let (i, j) = choose|i: int, j: int|
                    i < k - 1 && #[trigger] spawned_by(p, f, i, j, cand);
                assert(i < k && spawned_by(p, f, i, j, cand));
            } else {
                let j = choose|j: int| #[trigger] spawned_by(p, f, k - 1, j, cand);
                assert(spawned_by(p, f, k - 1, j, cand));
            }
        }
        if exists|i: int, j: int| i < k && #[trigger] spawned_by(p, f, i, j, cand) {
            let (i, j) = choose|i: int, j: int| i < k && #[trigger] spawned_by(p, f, i, j, cand);
            if i == k - 1 {
                assert(spawned_by(p, f, k - 1, j, cand));
            } else {
                assert(i < k - 1);
            }
        }
    } else {
        assert(candidates_upto(p, f, k).len() == 0);
    }
}

/// Whether `o` is what is reported of `c`.
#[verifier::opaque]
spec fn yields(
    p: &Program,
    f: FuncId,
    func: &Function,
    e: EncodedV,
    t: TableV,
    c: CandidateV,
    o: ObligationV,
) -> bool {
    leak_obligation(p, f, func, e, t, c) == Some(o)
}

proof fn lemma_obligations(
    p: &Program,
    f: FuncId,
    func: &Function,
    e: EncodedV,
    t: TableV,
    cs: Seq<CandidateV>,
    n: int,
    o: ObligationV,
)
    requires
        0 <= n <= cs.len(),
    ensures
        leak_obligations_upto(p, f, func, e, t, cs, n).contains(o) == exists|i: int|
            0 <= i < n && yields(p, f, func, e, t, #[trigger] cs[i], o),
    decreases n,
{
    if n > 0 {
        lemma_obligations(p, f, func, e, t, cs, n - 1, o);
        let last = leak_obligation(p, f, func, e, t, cs[n - 1]);
        lemma_in_both(leak_obligations_upto(p, f, func, e, t, cs, n - 1), opt_seq(last), o);
        lemma_in_opt(last, o);
        assert(yields(p, f, func, e, t, cs[n - 1], o) == (last == Some(o))) by {
            reveal(yields);
        }
        if exists|i: int|
            0 <= i < n && yields(p, f, func, e, t, #[trigger] cs[i], o) {
            let i = choose|i: int|
                0 <= i < n && yields(p, f, func, e, t, #[trigger] cs[i], o);
            if i < n - 1 {
                assert(yields(p, f, func, e, t, cs[i], o));
            }
        }
        if leak_obligations_upto(p, f, func, e, t, cs, n).contains(o) {
            if leak_obligations_upto(p, f, func, e, t, cs, n - 1).contains(o) {
                let i = choose|i: int|
                    0 <= i < n - 1 && yields(p, f, func, e, t, #[trigger] cs[i], o);
                assert(0 <= i < n && yields(p, f, func, e, t, cs[i], o));
            } else {
                assert(yields(p, f, func, e, t, cs[n - 1], o));
            }
        }
    } else {
        assert(leak_obligations_upto(p, f, func, e, t, cs, n).len() == 0);
    }
}

/// What is reported of a spawner: exactly the sends, receives and blocking selects of the
/// functions that its `go` statements name, on channels that the spawner made and keeps to
/// itself, for which its effects hold no counterpart.
pub proof fn waits_without_counterpart_are_reported(
    p: &Program,
    f: FuncId,
    func: Function,
    e: EncodedV,
    t: TableV,
    o: ObligationV,
)
    requires
        p.body(f) == Some(func),
        encoding_with(p, f, t) == Ok::<EncodedV, Seq<char>>(e),
    ensures
        leak_obligations(p, f, t).contains(o) <==> exists|i: int, j: int| #[trigger]
            reported_at(p, f, &func, e, t, i, j, o),
{
    reveal(yields);
    let cs = leak_candidates(p, &func);
    let n = func.sites().len() as int;
    lemma_obligations(p, f, &func, e, t, cs, cs.len() as int, o);
    if leak_obligations(p, f, t).contains(o) {
        let k = choose|k: int|
            0 <= k < cs.len() && yields(p, f, &func, e, t, #[trigger] cs[k], o);
        let cand = cs[k];
        assert(cs.contains(cand));
        lemma_upto(p, &func, n, cand);
        let (i, j) = choose|i: int, j: int| i < n && #[trigger] spawned_by(p, &func, i, j, cand);
        let go = func.sites()[i];
        if let Op::Go { callee: Callee::Static(c), args } = func.op_at(go) {
            let g = p.body(c).unwrap();
            g.lemma_sites();
            lemma_obligation(p, f, &func, e, t, go, c, args@, g, g.sites()[j], o);
            assert(reported_at(p, f, &func, e, t, i, j, o));
        }
    }
    if exists|i: int, j: int| #[trigger] reported_at(p, f, &func, e, t, i, j, o) {
        let (i, j) = choose|i: int, j: int| #[trigger] reported_at(p, f, &func, e, t, i, j, o);
        let go = func.sites()[i];
        if let Op::Go { callee: Callee::Static(c), args } = func.op_at(go) {
            let g = p.body(c).unwrap();
            g.lemma_sites();
            lemma_obligation(p, f, &func, e, t, go, c, args@, g, g.sites()[j], o);
            let cand = body_candidate(
                &func,
                go,
                c,
                None,
                &g,
                None,
                frame_of(&func, c, args@),
                g.sites()[j],
            ).unwrap();
            assert(spawned_by(p, &func, i, j, cand));
            lemma_upto(p, &func, n, cand);
            let k = choose|k: int| 0 <= k < cs.len() && cs[k] == cand;
            assert(yields(p, f, &func, e, t, cs[k], o));
        }
    }
}

// ---- Helpers ----

/// Whether instruction `s` of `g` calls `h` with `args`, now or when `g` is left.
pub open spec fn turns_to(g: &Function, s: Site, h: FuncId, args: Seq<ValueId>, kind: HopKind) -> bool {
    match g.op_at(s) {
        Op::Call { callee: Callee::Static(d), args: a, .. } => d == h && a@ == args && kind
            == HopKind::Call,
        Op::Defer { callee: Callee::Static(d), args: a } => d == h && a@ == args && kind
            == HopKind::Defer,
        _ => false,
    }
}

/// The operation of a candidate, on a channel as the function with the operation sees it.
pub open spec fn waits_at(op: Op, kind: CandKind, chan: ValueId) -> bool {
    match op {
        Op::Send { chan: c, .. } => kind == CandKind::Send && c == chan,
        Op::Recv { chan: c, .. } => kind == CandKind::Recv && c == chan,
        _ => false,
    }
}

proof fn lemma_hops_has(
    p: &Program,
    f: &Function,
    go: Site,
    c: FuncId,
    g: &Function,
    outer: FrameV,
    n: int,
    k: int,
    cand: CandidateV,
)
    requires
        0 <= k < n <= g.sites().len(),
        hop_candidates(p, f, go, c, g, outer, g.sites()[k]).contains(cand),
    ensures
        hops_candidates(p, f, go, c, g, outer, n).contains(cand),
    decreases n,
{
    lemma_in_both(
        hops_candidates(p, f, go, c, g, outer, n - 1),
        hop_candidates(p, f, go, c, g, outer, g.sites()[n - 1]),
        cand,
    );
    if k < n - 1 {
        lemma_hops_has(p, f, go, c, g, outer, n - 1, k, cand);
    }
}

proof fn lemma_upto_has(p: &Program, f: &Function, n: int, i: int, cand: CandidateV)
    requires
        0 <= i < n <= f.sites().len(),
        go_candidates(p, f, f.sites()[i]).contains(cand),
    ensures
        candidates_upto(p, f, n).contains(cand),
    decreases n,
{
    lemma_in_both(
        candidates_upto(p, f, n - 1),
        go_candidates(p, f, f.sites()[n - 1]),
        cand,
    );
    if i < n - 1 {
        lemma_upto_has(p, f, n - 1, i, cand);
    }
}

/// A helper that the spawned function calls, now or when it is left, is searched as well: every
/// send and receive of it on a channel that the spawner made, as seen through both calls, is a
/// candidate. A spawned function that calls itself is not its own helper.
pub proof fn helpers_are_searched(
    p: &Program,
    f: &Function,
    i: int,
    c: FuncId,
    args: Seq<ValueId>,
    g: Function,
    k: int,
    h: FuncId,
    more: Seq<ValueId>,
    how: HopKind,
    hf: Function,
    j: int,
    kind: CandKind,
    chan: ValueId,
)
    requires
        0 <= i < f.sites().len(),
        f.op_at(f.sites()[i]) matches Op::Go { callee: Callee::Static(d), args: a } && d == c && a@
            == args,
        p.body(c) == Some(g),
        0 <= k < g.sites().len(),
        turns_to(&g, g.sites()[k], h, more, how),
        h != c,
        p.body(h) == Some(hf),
        0 <= j < hf.sites().len(),
        waits_at(hf.op_at(hf.sites()[j]), kind, chan),
        seen_through(
            seen_through(resolved(&hf, chan), frame_of(&g, h, more)),
            frame_of(f, c, args),
        ).root is Alloc,
    ensures
        exists|cand: CandidateV| #[trigger]
            leak_candidates(p, f).contains(cand) && cand.kind == kind && cand.callee == c
                && cand.go_pos == f.pos_at(f.sites()[i]) && cand.op_block == hf.sites()[j].0
                && cand.op_instr == hf.sites()[j].1 && cand.spawner_loc == seen_through(
                seen_through(resolved(&hf, chan), frame_of(&g, h, more)),
                frame_of(f, c, args),
            ) && (cand.hop matches Some(hop) && hop.helper == h && hop.call_block == g.sites()[k].0
                && hop.call_instr == g.sites()[k].1 && hop.kind == how),
{
    let go = f.sites()[i];
    let outer = frame_of(f, c, args);
    let inner = Some(frame_of(&g, h, more));
    let (hop, a) = hop_at(&g, g.sites()[k]).unwrap();
    assert(a == more && hop.helper == h);
    let m = hf.sites().len() as int;
    let cand = body_candidate(f, go, c, Some(hop), &hf, inner, outer, hf.sites()[j]).unwrap();
    assert(made_by(f, go, c, Some(hop), &hf, inner, outer, j, cand));
    lemma_body(f, go, c, Some(hop), &hf, inner, outer, m, cand);
    let n = g.sites().len() as int;
    lemma_hops_has(p, f, go, c, &g, outer, n, k, cand);
    lemma_in_both(
        body_candidates(f, go, c, None, &g, None, outer, n),
        hops_candidates(p, f, go, c, &g, outer, n),
        cand,
    );
    lemma_upto_has(p, f, f.sites().len() as int, i, cand);
    assert(leak_candidates(p, f).contains(cand));
}

} // verus!
