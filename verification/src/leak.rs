//! The goroutine-leak checker: a goroutine that blocks forever on a channel that its spawner
//! made and never lets out.

use vstd::prelude::*;
use crate::checker::{obligations_v, queries_v, Checker, Obligation, ObligationV};
use crate::effects::{
    extended, fv_locs, fv_slots, loc_unknown, locs, resolve_all, resolve_loc, resolved,
    resolved_all, slot, ChanOps, Effects, EffectsV, Loc, LocV, Root, RootV,
};
use crate::encode::{encode_func_with, encoding_with, opt_seq, EncodedFunc, EncodedV};
use crate::escape::{escapes, escaping};
use crate::graph::{
    ascending_filter, cyclic_blocks, reaches_plus, strict_ancestors, succ_graph, adj,
};
use crate::ir::{
    clone_pos, Callee, ConstVal, FuncId, Function, MakeKind, Op, Pos, Program, SelectArm, Site,
    ValueId, ValueKind,
};
use crate::order::SortedMap;
use crate::query::{consts_v, sort_consts, sorted_consts, Const, Query, QueryV, SatResult};
use crate::shared::{canonical, canonical_value, clause_terms, preconditions_of};
use crate::summary::{clauses, Clause, ClauseV, SummaryTable, TableV};
use crate::term::{
    mk_bin, mk_compare, mk_ite, mk_not, opt_term, terms, BvBinOp, BvCmpOp, Sort, Term, TermV,
};

verus! {

/// Finds goroutines that block forever.
#[derive(Debug, Clone, Copy, PartialEq, Eq)]
pub struct LeakChecker;

// ---- Candidates ----

/// What a goroutine blocks on.
#[derive(Debug, Clone, Copy, PartialEq, Eq, Structural)]
pub enum CandKind {
    Send,
    Recv,
    Select,
}

/// How a helper is reached.
#[derive(Debug, Clone, Copy, PartialEq, Eq, Structural)]
pub enum HopKind {
    Call,
    Defer,
}

/// The call of a helper that the goroutine blocks in.
#[derive(Debug, Clone, Copy, PartialEq, Eq, Structural)]
pub struct Hop {
    pub helper: FuncId,
    /// Where the spawned function calls the helper.
    pub call_block: usize,
    pub call_instr: usize,
    pub kind: HopKind,
}

/// A blocking operation of a spawned goroutine on a channel that the spawner made.
#[derive(Debug, PartialEq, Eq)]
pub struct Candidate {
    /// The block of the spawner with the `go` statement.
    pub go_block: usize,
    pub go_pos: Option<Pos>,
    /// The spawned function.
    pub callee: FuncId,
    /// Where the operation is, in the spawned function or in the helper.
    pub op_block: usize,
    pub op_instr: usize,
    pub kind: CandKind,
    /// The channel as the function with the operation sees it; unknown for a select.
    pub callee_loc: Loc,
    /// What the spawner made.
    pub alloc_value: ValueId,
    /// The channel as the spawner sees it; for a select, that of its first arm.
    pub spawner_loc: Loc,
    /// For a select, direction and channel of each arm as the spawner sees it.
    pub arm_locs: Vec<(u32, Loc)>,
    /// The helper that blocks, if it is not the spawned function itself.
    pub hop: Option<Hop>,
}

/// The model of a [`Candidate`].
pub struct CandidateV {
    pub go_block: usize,
    pub go_pos: Option<Pos>,
    pub callee: FuncId,
    pub op_block: usize,
    pub op_instr: usize,
    pub kind: CandKind,
    pub callee_loc: LocV,
    pub alloc_value: ValueId,
    pub spawner_loc: LocV,
    pub arm_locs: Seq<(u32, LocV)>,
    pub hop: Option<Hop>,
}

/// The models of arms.
pub open spec fn arms_v(v: Seq<(u32, Loc)>) -> Seq<(u32, LocV)> {
    Seq::new(v.len(), |i: int| (v[i].0, v[i].1@))
}

impl View for Candidate {
    type V = CandidateV;

    open spec fn view(&self) -> CandidateV {
        CandidateV {
            go_block: self.go_block,
            go_pos: self.go_pos,
            callee: self.callee,
            op_block: self.op_block,
            op_instr: self.op_instr,
            kind: self.kind,
            callee_loc: self.callee_loc@,
            alloc_value: self.alloc_value,
            spawner_loc: self.spawner_loc@,
            arm_locs: arms_v(self.arm_locs@),
            hop: self.hop,
        }
    }
}

/// The models of candidates.
pub open spec fn cands_v(v: Seq<Candidate>) -> Seq<CandidateV> {
    Seq::new(v.len(), |i: int| v[i]@)
}

/// How locations of a callee look at one call: where the arguments and the captured variables
/// are.
pub struct Frame {
    pub args: Vec<Loc>,
    pub fvs: Vec<Loc>,
}

/// The model of a [`Frame`].
pub struct FrameV {
    pub args: Seq<LocV>,
    pub fvs: Seq<LocV>,
}

impl View for Frame {
    type V = FrameV;

    open spec fn view(&self) -> FrameV {
        FrameV { args: locs(self.args@), fvs: locs(self.fvs@) }
    }
}

/// The frame of a call of `c` in `f` with arguments `args`.
pub open spec fn frame_of(f: &Function, c: FuncId, args: Seq<ValueId>) -> FrameV {
    FrameV { args: resolved_all(f, args), fvs: fv_slots(f, c) }
}

/// A location of the callee as the caller sees it. Only parameters and captured variables are
/// seen.
pub open spec fn seen_through(l: LocV, m: FrameV) -> LocV {
    match l.root {
        RootV::Param(i) => extended(slot(m.args, i), l.path),
        RootV::FreeVar(i) => extended(slot(m.fvs, i), l.path),
        _ => loc_unknown(),
    }
}

/// A location seen through the inner frame, if there is one, and then the outer one.
pub open spec fn seen(l: LocV, inner: Option<FrameV>, outer: FrameV) -> LocV {
    match inner {
        Some(m) => seen_through(seen_through(l, m), outer),
        None => seen_through(l, outer),
    }
}

/// A blocking operation whose channels the spawner made.
pub struct HitV {
    pub op_block: usize,
    pub op_instr: usize,
    pub kind: CandKind,
    pub callee_loc: LocV,
    pub mapped: LocV,
    pub arm_locs: Seq<(u32, LocV)>,
}

/// The arms of a select as the spawner sees them.
pub open spec fn seen_arms(
    host: &Function,
    inner: Option<FrameV>,
    outer: FrameV,
    arms: Seq<SelectArm>,
) -> Seq<(u32, LocV)> {
    Seq::new(
        arms.len(),
        |i: int| (arms[i].dir, seen(resolved(host, arms[i].chan), inner, outer)),
    )
}

/// Whether the spawner made the channels of all arms.
pub open spec fn all_made(arms: Seq<(u32, LocV)>) -> bool {
    forall|i: int| 0 <= i < arms.len() ==> (#[trigger] arms[i]).1.root is Alloc
}

/// The hit of a send or receive on `chan`.
pub open spec fn chan_hit(
    host: &Function,
    inner: Option<FrameV>,
    outer: FrameV,
    s: Site,
    kind: CandKind,
    chan: ValueId,
) -> Option<HitV> {
    let l = resolved(host, chan);
    let m = seen(l, inner, outer);
    if m.root is Alloc {
        Some(
            HitV {
                op_block: s.0,
                op_instr: s.1,
                kind,
                callee_loc: l,
                mapped: m,
                arm_locs: Seq::empty(),
            },
        )
    } else {
        None
    }
}

/// The blocking operation at `s`, if the spawner made its channels.
pub open spec fn hit_at(host: &Function, inner: Option<FrameV>, outer: FrameV, s: Site) -> Option<HitV> {
    match host.op_at(s) {
        Op::Send { chan, .. } => chan_hit(host, inner, outer, s, CandKind::Send, chan),
        Op::Recv { chan, .. } => chan_hit(host, inner, outer, s, CandKind::Recv, chan),
        Op::Select { arms, blocking, .. } => {
            let seen_at = seen_arms(host, inner, outer, arms@);
            if blocking && arms@.len() > 0 && all_made(seen_at) {
                Some(
                    HitV {
                        op_block: s.0,
                        op_instr: s.1,
                        kind: CandKind::Select,
                        callee_loc: loc_unknown(),
                        mapped: seen_at[0].1,
                        arm_locs: seen_at,
                    },
                )
            } else {
                None
            }
        },
        _ => None,
    }
}

/// The candidate that a hit makes at a `go` statement.
pub open spec fn hit_candidate(
    f: &Function,
    go: Site,
    callee: FuncId,
    hop: Option<Hop>,
    h: HitV,
) -> Option<CandidateV> {
    match h.mapped.root {
        RootV::Alloc(a) => Some(
            CandidateV {
                go_block: go.0,
                go_pos: f.pos_at(go),
                callee,
                op_block: h.op_block,
                op_instr: h.op_instr,
                kind: h.kind,
                callee_loc: h.callee_loc,
                alloc_value: ValueId(a),
                spawner_loc: h.mapped,
                arm_locs: h.arm_locs,
                hop,
            },
        ),
        _ => None,
    }
}

/// The candidate of the blocking operation at `s` of `host`.
pub open spec fn body_candidate(
    f: &Function,
    go: Site,
    callee: FuncId,
    hop: Option<Hop>,
    host: &Function,
    inner: Option<FrameV>,
    outer: FrameV,
    s: Site,
) -> Option<CandidateV> {
    match hit_at(host, inner, outer, s) {
        Some(h) => hit_candidate(f, go, callee, hop, h),
        None => None,
    }
}

/// The candidates among the first `k` instructions of `host`.
pub open spec fn body_candidates(
    f: &Function,
    go: Site,
    callee: FuncId,
    hop: Option<Hop>,
    host: &Function,
    inner: Option<FrameV>,
    outer: FrameV,
    k: int,
) -> Seq<CandidateV>
    decreases k,
{
    if k <= 0 {
        Seq::empty()
    } else {
        body_candidates(f, go, callee, hop, host, inner, outer, k - 1) + opt_seq(
            body_candidate(f, go, callee, hop, host, inner, outer, host.sites()[k - 1]),
        )
    }
}

/// The helper that instruction `s` of the spawned function calls.
pub open spec fn hop_at(g: &Function, s: Site) -> Option<(Hop, Seq<ValueId>)> {
    match g.op_at(s) {
        Op::Call { callee: Callee::Static(h), args, .. } => Some(
            (Hop { helper: h, call_block: s.0, call_instr: s.1, kind: HopKind::Call }, args@),
        ),
        Op::Defer { callee: Callee::Static(h), args } => Some(
            (Hop { helper: h, call_block: s.0, call_instr: s.1, kind: HopKind::Defer }, args@),
        ),
        _ => None,
    }
}

/// The candidates in the helper that instruction `s` of the spawned function `g` calls. A
/// recursive call adds nothing.
pub open spec fn hop_candidates(
    p: &Program,
    f: &Function,
    go: Site,
    callee: FuncId,
    g: &Function,
    outer: FrameV,
    s: Site,
) -> Seq<CandidateV> {
    match hop_at(g, s) {
        Some((hop, args)) => if hop.helper == callee {
            Seq::empty()
        } else {
            match p.body(hop.helper) {
                Some(h) => body_candidates(
                    f,
                    go,
                    callee,
                    Some(hop),
                    &h,
                    Some(frame_of(g, hop.helper, args)),
                    outer,
                    h.sites().len() as int,
                ),
                None => Seq::empty(),
            }
        },
        None => Seq::empty(),
    }
}

/// The candidates in the helpers that the first `k` instructions of `g` call.
pub open spec fn hops_candidates(
    p: &Program,
    f: &Function,
    go: Site,
    callee: FuncId,
    g: &Function,
    outer: FrameV,
    k: int,
) -> Seq<CandidateV>
    decreases k,
{
    if k <= 0 {
        Seq::empty()
    } else {
        hops_candidates(p, f, go, callee, g, outer, k - 1) + hop_candidates(
            p,
            f,
            go,
            callee,
            g,
            outer,
            g.sites()[k - 1],
        )
    }
}

/// The candidates of the `go` statement at `s`: in the spawned function itself, then in the
/// helpers that it calls directly.
pub open spec fn go_candidates(p: &Program, f: &Function, s: Site) -> Seq<CandidateV> {
    match f.op_at(s) {
        Op::Go { callee: Callee::Static(c), args } => match p.body(c) {
            Some(g) => {
                let outer = frame_of(f, c, args@);
                body_candidates(f, s, c, None, &g, None, outer, g.sites().len() as int)
                    + hops_candidates(p, f, s, c, &g, outer, g.sites().len() as int)
            },
            None => Seq::empty(),
        },
        _ => Seq::empty(),
    }
}

/// The candidates of the first `k` instructions.
pub open spec fn candidates_upto(p: &Program, f: &Function, k: int) -> Seq<CandidateV>
    decreases k,
{
    if k <= 0 {
        Seq::empty()
    } else {
        candidates_upto(p, f, k - 1) + go_candidates(p, f, f.sites()[k - 1])
    }
}

/// Everything that a goroutine spawned in `f` may block on forever.
pub open spec fn leak_candidates(p: &Program, f: &Function) -> Seq<CandidateV> {
    candidates_upto(p, f, f.sites().len() as int)
}

fn make_frame(f: &Function, c: FuncId, args: &Vec<ValueId>) -> (r: Frame)
    ensures
        r@ == frame_of(f, c, args@),
{
    Frame { args: resolve_all(f, args), fvs: fv_locs(f, c) }
}

fn slot_loc(v: &Vec<Loc>, i: u32) -> (r: Loc)
    ensures
        r@ == slot(locs(v@), i),
{
    if (i as usize) < v.len() {
        v[i as usize].clone()
    } else {
        Loc::unknown()
    }
}

fn extend(base: Loc, tail: &Vec<u32>) -> (r: Loc)
    ensures
        r@ == extended(base@, tail@),
{
    let ghost p0 = base.path@;
    let mut path = base.path;
    let mut rest = crate::graph::copy_ids(tail);
    path.append(&mut rest);
    assert(path@ =~= p0 + tail@);
    (Loc { root: base.root, path }).capped()
}

/// A location of the callee as the caller sees it.
fn map_through_site(l: &Loc, m: &Frame) -> (r: Loc)
    ensures
        r@ == seen_through(l@, m@),
{
    match &l.root {
        Root::Param(i) => extend(slot_loc(&m.args, *i), &l.path),
        Root::FreeVar(i) => extend(slot_loc(&m.fvs, *i), &l.path),
        _ => Loc::unknown(),
    }
}

/// The model of an optional frame.
pub open spec fn opt_frame(m: Option<Frame>) -> Option<FrameV> {
    match m {
        Some(m) => Some(m@),
        None => None,
    }
}

fn map_loc(l: &Loc, inner: &Option<Frame>, outer: &Frame) -> (r: Loc)
    ensures
        r@ == seen(l@, opt_frame(*inner), outer@),
{
    match inner {
        Some(m) => map_through_site(&map_through_site(l, m), outer),
        None => map_through_site(l, outer),
    }
}

fn is_alloc(l: &Loc) -> (r: Option<u32>)
    ensures
        match r {
            Some(a) => l@.root == RootV::Alloc(a),
            None => !(l@.root is Alloc),
        },
{
    match &l.root {
        Root::Alloc(a) => Some(*a),
        _ => None,
    }
}

/// Where candidates come from: the `go` statement and the spawned function.
struct Spawn<'a> {
    f: &'a Function,
    go: Site,
    callee: FuncId,
    hop: Option<Hop>,
}

impl<'a> Spawn<'a> {
    fn chan_candidate(
        &self,
        host: &Function,
        inner: &Option<Frame>,
        outer: &Frame,
        s: Site,
        kind: CandKind,
        chan: ValueId,
    ) -> (r: Option<Candidate>)
        requires
            self.f.has_site(self.go),
        ensures
            match (r, chan_hit(host, opt_frame(*inner), outer@, s, kind, chan)) {
                (Some(c), Some(h)) => hit_candidate(self.f, self.go, self.callee, self.hop, h) == Some(c@),
                (None, None) => true,
                _ => false,
            },
    {
        let l = resolve_loc(host, chan);
        let m = map_loc(&l, inner, outer);
        match is_alloc(&m) {
            Some(a) => {
                let arm_locs: Vec<(u32, Loc)> = Vec::new();
                assert(arms_v(arm_locs@) =~= Seq::<(u32, LocV)>::empty());
                Some(
                    Candidate {
                        go_block: self.go.0,
                        go_pos: clone_pos(&self.f.blocks[self.go.0].instrs[self.go.1].pos),
                        callee: self.callee,
                        op_block: s.0,
                        op_instr: s.1,
                        kind,
                        callee_loc: l,
                        alloc_value: ValueId(a),
                        spawner_loc: m,
                        arm_locs,
                        hop: self.hop,
                    },
                )
            },
            None => None,
        }
    }

    fn select_candidate(
        &self,
        host: &Function,
        inner: &Option<Frame>,
        outer: &Frame,
        s: Site,
        arms: &Vec<SelectArm>,
    ) -> (r: Option<Candidate>)
        requires
            self.f.has_site(self.go),
            host.op_at(s) matches Op::Select { arms: a, blocking, .. } && a@ == arms@ && blocking,
        ensures
            match (r, hit_at(host, opt_frame(*inner), outer@, s)) {
                (Some(c), Some(h)) => hit_candidate(self.f, self.go, self.callee, self.hop, h) == Some(c@),
                (None, None) => true,
                _ => false,
            },
    {
        let ghost want = seen_arms(host, opt_frame(*inner), outer@, arms@);
        let mut out: Vec<(u32, Loc)> = Vec::new();
        let mut i: usize = 0;
        while i < arms.len()
            invariant
                i <= arms@.len(),
                want == seen_arms(host, opt_frame(*inner), outer@, arms@),
                out@.len() == i,
                forall|j: int|
                    0 <= j < i ==> ((#[trigger] out@[j]).0, out@[j].1@) == want[j] && want[j].1.root
                        is Alloc,
                host.op_at(s) matches Op::Select { arms: a, blocking, .. } && a@ == arms@ && blocking,
            decreases arms@.len() - i,
        {
            let l = resolve_loc(host, arms[i].chan);
            let m = map_loc(&l, inner, outer);
            assert(want[i as int] == (arms@[i as int].dir, m@));
            let ghost mv = m@;
            match is_alloc(&m) {
                Some(_) => {},
                None => {
                    assert(!all_made(want));
                    return None;
                },
            }
            assert(mv.root is Alloc);
            out.push((arms[i].dir, m));
            assert(out@[i as int].1@ == mv);
            i += 1;
        }
        if out.len() == 0 {
            return None;
        }
        assert(arms_v(out@) =~= want);
        assert(all_made(want)) by {
            assert forall|j: int| 0 <= j < want.len() implies (#[trigger] want[j]).1.root is Alloc by {
                assert((out@[j].0, out@[j].1@) == want[j]);
            }
        }
        let first = out[0].1.clone();
        match is_alloc(&first) {
            Some(a) => Some(
                Candidate {
                    go_block: self.go.0,
                    go_pos: clone_pos(&self.f.blocks[self.go.0].instrs[self.go.1].pos),
                    callee: self.callee,
                    op_block: s.0,
                    op_instr: s.1,
                    kind: CandKind::Select,
                    callee_loc: Loc::unknown(),
                    alloc_value: ValueId(a),
                    spawner_loc: first,
                    arm_locs: out,
                    hop: self.hop,
                },
            ),
            None => {
                assert(false);
                None
            },
        }
    }

    /// Adds the candidates in the body of `host`.
    fn scan_body(&self, host: &Function, inner: &Option<Frame>, outer: &Frame, out: &mut Vec<Candidate>)
        requires
            self.f.has_site(self.go),
        ensures
            cands_v(final(out)@) == cands_v(old(out)@) + body_candidates(
                self.f,
                self.go,
                self.callee,
                self.hop,
                host,
                opt_frame(*inner),
                outer@,
                host.sites().len() as int,
            ),
    {
        let sites = host.all_sites();
        let ghost start = cands_v(out@);
        let ghost iv = opt_frame(*inner);
        let ghost ov = outer@;
        assert(start + Seq::<CandidateV>::empty() =~= start);
        let mut k: usize = 0;
        while k < sites.len()
            invariant
                k <= sites@.len(),
                sites@ == host.sites(),
                forall|k: int| 0 <= k < sites@.len() ==> host.has_site(#[trigger] sites@[k]),
                self.f.has_site(self.go),
                iv == opt_frame(*inner),
                ov == outer@,
                cands_v(out@) == start + body_candidates(
                    self.f,
                    self.go,
                    self.callee,
                    self.hop,
                    host,
                    iv,
                    ov,
                    k as int,
                ),
            decreases sites@.len() - k,
        {
            let s = sites[k];
            let found = match host.op(s) {
                Op::Send { chan, .. } => self.chan_candidate(host, inner, outer, s, CandKind::Send, *chan),
                Op::Recv { chan, .. } => self.chan_candidate(host, inner, outer, s, CandKind::Recv, *chan),
                Op::Select { arms, blocking, .. } => {
                    if *blocking {
                        self.select_candidate(host, inner, outer, s, arms)
                    } else {
                        None
                    }
                },
                _ => None,
            };
            let ghost want = body_candidate(self.f, self.go, self.callee, self.hop, host, iv, ov, s);
            let ghost before = out@;
            match found {
                Some(c) => {
                    assert(want == Some(c@));
                    let ghost cv = c@;
                    out.push(c);
                    assert(cands_v(out@) =~= cands_v(before) + seq![cv]);
                },
                None => {
                    assert(want is None);
                    assert(cands_v(out@) =~= cands_v(before) + Seq::<CandidateV>::empty());
                },
            }
            k += 1;
            assert(cands_v(out@) =~= start + body_candidates(
                self.f,
                self.go,
                self.callee,
                self.hop,
                host,
                iv,
                ov,
                k as int,
            ));
        }
    }
}

fn scan_hop(
    p: &Program,
    f: &Function,
    go: Site,
    callee: FuncId,
    g: &Function,
    outer: &Frame,
    s: Site,
    out: &mut Vec<Candidate>,
)
    requires
        f.has_site(go),
        g.has_site(s),
    ensures
        cands_v(final(out)@) == cands_v(old(out)@) + hop_candidates(p, f, go, callee, g, outer@, s),
{
    let ghost start = cands_v(out@);
    assert(start + Seq::<CandidateV>::empty() =~= start);
    let (h, args, kind) = match g.op(s) {
        Op::Call { callee: Callee::Static(h), args, .. } => (*h, args, HopKind::Call),
        Op::Defer { callee: Callee::Static(h), args } => (*h, args, HopKind::Defer),
        _ => {
            return;
        },
    };
    if h == callee {
        return;
    }
    match p.func(h) {
        Some(host) => {
            let spawn = Spawn {
                f,
                go,
                callee,
                hop: Some(Hop { helper: h, call_block: s.0, call_instr: s.1, kind }),
            };
            let inner = Some(make_frame(g, h, args));
            spawn.scan_body(host, &inner, outer, out);
        },
        None => {},
    }
}

fn scan_go(p: &Program, f: &Function, s: Site, out: &mut Vec<Candidate>)
    requires
        f.has_site(s),
    ensures
        cands_v(final(out)@) == cands_v(old(out)@) + go_candidates(p, f, s),
{
    let ghost start = cands_v(out@);
    assert(start + Seq::<CandidateV>::empty() =~= start);
    let (c, args) = match f.op(s) {
        Op::Go { callee: Callee::Static(c), args } => (*c, args),
        _ => {
            return;
        },
    };
    let g = match p.func(c) {
        Some(g) => g,
        None => {
            return;
        },
    };
    let outer = make_frame(f, c, args);
    let ghost ov = outer@;
    let spawn = Spawn { f, go: s, callee: c, hop: None };
    let inner: Option<Frame> = None;
    spawn.scan_body(g, &inner, &outer, out);
    let ghost own = body_candidates(f, s, c, None, g, None, ov, g.sites().len() as int);
    let sites = g.all_sites();
    assert(cands_v(out@) =~= start + own + Seq::<CandidateV>::empty());
    let mut k: usize = 0;
    while k < sites.len()
        invariant
            k <= sites@.len(),
            sites@ == g.sites(),
            forall|k: int| 0 <= k < sites@.len() ==> g.has_site(#[trigger] sites@[k]),
            f.has_site(s),
            ov == outer@,
            cands_v(out@) == start + own + hops_candidates(p, f, s, c, g, ov, k as int),
        decreases sites@.len() - k,
    {
        scan_hop(p, f, s, c, g, &outer, sites[k], out);
        k += 1;
        assert(cands_v(out@) =~= start + own + hops_candidates(p, f, s, c, g, ov, k as int));
    }
    assert(cands_v(out@) =~= start + (own + hops_candidates(
        p,
        f,
        s,
        c,
        g,
        ov,
        g.sites().len() as int,
    )));
}

/// Everything that a goroutine spawned in `f` may block on forever: sends, receives and
/// blocking selects on channels that `f` made, in the spawned function or in a helper that it
/// calls directly.
pub fn candidates(p: &Program, f: &Function) -> (r: Vec<Candidate>)
    ensures
        cands_v(r@) == leak_candidates(p, f),
{
    let sites = f.all_sites();
    let mut out: Vec<Candidate> = Vec::new();
    assert(cands_v(out@) =~= Seq::<CandidateV>::empty());
    let mut k: usize = 0;
    while k < sites.len()
        invariant
            k <= sites@.len(),
            sites@ == f.sites(),
            forall|k: int| 0 <= k < sites@.len() ==> f.has_site(#[trigger] sites@[k]),
            cands_v(out@) == candidates_upto(p, f, k as int),
        decreases sites@.len() - k,
    {
        scan_go(p, f, sites[k], &mut out);
        k += 1;
    }
    out
}

// ---- Counterparts ----

/// Whether one of `ops` unblocks a send or a receive.
pub open spec fn unblocks(kind: CandKind, ops: ChanOps) -> bool {
    match kind {
        CandKind::Send => ops.recv || ops.select || ops.close,
        CandKind::Recv => ops.send || ops.select || ops.close,
        CandKind::Select => false,
    }
}

/// Whether an operation on `l` unblocks a send or a receive.
pub open spec fn unblocked_at(env: EffectsV, l: LocV, kind: CandKind) -> bool {
    env.chan.contains_key(l) && unblocks(kind, env.chan[l])
}

/// Whether something unblocks a send or a receive on `l`: an operation there, or on an unknown
/// channel. A select is not judged as a whole.
pub open spec fn counterpart(env: EffectsV, l: LocV, kind: CandKind) -> bool {
    kind == CandKind::Select || unblocked_at(env, l, kind) || unblocked_at(env, loc_unknown(), kind)
}

fn ops_unblock(kind: CandKind, ops: ChanOps) -> (r: bool)
    ensures
        r == unblocks(kind, ops),
{
    match kind {
        CandKind::Send => ops.recv || ops.select || ops.close,
        CandKind::Recv => ops.send || ops.select || ops.close,
        CandKind::Select => false,
    }
}

/// Whether something in the spawner's effects unblocks a send or a receive on `loc`.
pub fn has_counterpart(env: &Effects, loc: &Loc, kind: CandKind) -> (r: bool)
    requires
        env.wf(),
    ensures
        r == counterpart(env@, loc@, kind),
{
    if kind == CandKind::Select {
        return true;
    }
    let here = match env.chan_ops.get(loc) {
        Some(ops) => ops_unblock(kind, *ops),
        None => false,
    };
    let elsewhere = match env.chan_ops.get(&Loc::unknown()) {
        Some(ops) => ops_unblock(kind, *ops),
        None => false,
    };
    here || elsewhere
}

/// Whether something unblocks an arm of a select: direction 1 sends. At the arm's own channel
/// a select does not count, for it may be the very one that blocks.
pub open spec fn arm_counterpart(env: EffectsV, l: LocV, dir: u32) -> bool {
    let at_arm = env.chan.contains_key(l) && (if dir == 1 {
        env.chan[l].recv || env.chan[l].close
    } else {
        env.chan[l].send || env.chan[l].close
    });
    at_arm || unblocked_at(env, loc_unknown(), if dir == 1 { CandKind::Send } else { CandKind::Recv })
}

/// Whether something in the spawner's effects unblocks an arm of a select.
pub fn arm_has_counterpart(env: &Effects, loc: &Loc, dir: u32) -> (r: bool)
    requires
        env.wf(),
    ensures
        r == arm_counterpart(env@, loc@, dir),
{
    let here = match env.chan_ops.get(loc) {
        Some(ops) => if dir == 1 {
            ops.recv || ops.close
        } else {
            ops.send || ops.close
        },
        None => false,
    };
    let kind = if dir == 1 { CandKind::Send } else { CandKind::Recv };
    let elsewhere = match env.chan_ops.get(&Loc::unknown()) {
        Some(ops) => ops_unblock(kind, *ops),
        None => false,
    };
    here || elsewhere
}

// ---- Capacity ----

/// What a channel's capacity says of a blocked operation.
#[derive(Debug, Clone, Copy, PartialEq, Eq, Structural)]
pub enum CapClass {
    /// The operation blocks whenever it is reached.
    Unbuffered,
    /// A send blocks once this many values are in the buffer.
    BufferedConst(u64),
    /// Nothing can be said.
    Silent,
}

/// Whether `op` makes `v` as a channel, or as a cell.
pub open spec fn defines_chan(op: Op, v: ValueId) -> bool {
    match op {
        Op::Make { dst, kind, .. } => kind == MakeKind::Chan && dst == v,
        Op::Alloc { dst, .. } => dst == v,
        _ => false,
    }
}

/// The first instruction at or after `k` that makes `v` as a channel or as a cell.
pub open spec fn chan_def(f: &Function, v: ValueId, k: int) -> Option<Site>
    decreases f.sites().len() - k,
{
    if k < 0 || k >= f.sites().len() {
        None
    } else if defines_chan(f.op_at(f.sites()[k]), v) {
        Some(f.sites()[k])
    } else {
        chan_def(f, v, k + 1)
    }
}

/// What the first `k` instructions store in the cell `v`.
pub open spec fn stored(f: &Function, v: ValueId, k: int) -> Seq<ValueId>
    decreases k,
{
    if k <= 0 {
        Seq::empty()
    } else {
        match f.op_at(f.sites()[k - 1]) {
            Op::Store { addr, val } => if addr == v {
                stored(f, v, k - 1).push(val)
            } else {
                stored(f, v, k - 1)
            },
            _ => stored(f, v, k - 1),
        }
    }
}

/// The constant that `v` is a copy of, as a capacity.
pub open spec fn const_capacity(f: &Function, v: ValueId) -> Option<u64> {
    match f.kind_of(canonical(f, v)) {
        ValueKind::Const(ConstVal::Int(n)) => if n >= 0 { Some(n as u64) } else { None },
        _ => None,
    }
}

/// The capacity of the channel `v`, or of the one channel that is stored in the cell `v`,
/// through at most `hops` cells.
pub open spec fn capacity_from(f: &Function, v: ValueId, hops: nat) -> Option<u64>
    decreases hops,
{
    if hops == 0 {
        None
    } else {
        match chan_def(f, v, 0) {
            Some(s) => match f.op_at(s) {
                Op::Make { args, .. } => if args@.len() > 0 { const_capacity(f, args@[0]) } else { None },
                _ => {
                    let vals = stored(f, v, f.sites().len() as int);
                    if vals.len() == 1 && canonical(f, vals[0]) != v {
                        capacity_from(f, canonical(f, vals[0]), (hops - 1) as nat)
                    } else {
                        None
                    }
                },
            },
            None => None,
        }
    }
}

/// How many cells are followed.
pub const CELL_HOPS: usize = 64;

/// The capacity of the channel `v`, where it is a constant.
pub open spec fn capacity(f: &Function, v: ValueId) -> Option<u64> {
    capacity_from(f, v, CELL_HOPS as nat)
}

fn find_chan_def(f: &Function, sites: &Vec<Site>, v: ValueId) -> (r: Option<Site>)
    requires
        sites@ == f.sites(),
        forall|k: int| 0 <= k < sites@.len() ==> f.has_site(#[trigger] sites@[k]),
    ensures
        r == chan_def(f, v, 0),
        r matches Some(s) ==> f.has_site(s) && defines_chan(f.op_at(s), v),
{
    let mut k: usize = 0;
    while k < sites.len()
        invariant
            k <= sites@.len(),
            sites@ == f.sites(),
            forall|k: int| 0 <= k < sites@.len() ==> f.has_site(#[trigger] sites@[k]),
            chan_def(f, v, 0) == chan_def(f, v, k as int),
        decreases sites@.len() - k,
    {
        let defines = match f.op(sites[k]) {
            Op::Make { dst, kind, .. } => *kind == MakeKind::Chan && *dst == v,
            Op::Alloc { dst, .. } => *dst == v,
            _ => false,
        };
        if defines {
            return Some(sites[k]);
        }
        k += 1;
    }
    None
}

fn stored_values(f: &Function, sites: &Vec<Site>, v: ValueId) -> (r: Vec<ValueId>)
    requires
        sites@ == f.sites(),
        forall|k: int| 0 <= k < sites@.len() ==> f.has_site(#[trigger] sites@[k]),
    ensures
        r@ == stored(f, v, f.sites().len() as int),
{
    let mut out: Vec<ValueId> = Vec::new();
    let mut k: usize = 0;
    while k < sites.len()
        invariant
            k <= sites@.len(),
            sites@ == f.sites(),
            forall|k: int| 0 <= k < sites@.len() ==> f.has_site(#[trigger] sites@[k]),
            out@ == stored(f, v, k as int),
        decreases sites@.len() - k,
    {
        if let Op::Store { addr, val } = f.op(sites[k]) {
            if *addr == v {
                out.push(*val);
            }
        }
        k += 1;
    }
    out
}

fn const_cap(f: &Function, v: ValueId) -> (r: Option<u64>)
    ensures
        r == const_capacity(f, v),
{
    match f.value_kind(canonical_value(f, v)) {
        Some(ValueKind::Const(ConstVal::Int(n))) => if *n >= 0 {
            Some(*n as u64)
        } else {
            None
        },
        _ => None,
    }
}

/// The capacity of the channel `v`, or of the one channel that is stored in the cell `v`,
/// where it is a constant.
pub fn cap_of(f: &Function, v: ValueId) -> (r: Option<u64>)
    ensures
        r == capacity(f, v),
{
    let sites = f.all_sites();
    let mut cur = v;
    let mut left: usize = CELL_HOPS;
    while left > 0
        invariant
            left <= CELL_HOPS,
            sites@ == f.sites(),
            forall|k: int| 0 <= k < sites@.len() ==> f.has_site(#[trigger] sites@[k]),
            capacity_from(f, cur, left as nat) == capacity(f, v),
        decreases left,
    {
        let s = match find_chan_def(f, &sites, cur) {
            Some(s) => s,
            None => {
                return None;
            },
        };
        match f.op(s) {
            Op::Make { args, .. } => {
                return if args.len() > 0 {
                    const_cap(f, args[0])
                } else {
                    None
                };
            },
            _ => {
                let vals = stored_values(f, &sites, cur);
                if vals.len() != 1 {
                    return None;
                }
                let next = canonical_value(f, vals[0]);
                if next == cur {
                    return None;
                }
                cur = next;
            },
        }
        left -= 1;
    }
    None
}

/// Whether all arms are on channels without a buffer.
pub open spec fn arms_unbuffered(f: &Function, arms: Seq<(u32, LocV)>) -> bool {
    forall|i: int|
        0 <= i < arms.len() ==> ((#[trigger] arms[i]).1.root matches RootV::Alloc(a) && capacity(
            f,
            ValueId(a),
        ) == Some(0u64))
}

/// What the capacity says of a candidate. For a receive the capacity does not matter. A send
/// into a buffer is only judged if its block is not on a cycle.
pub open spec fn classified(p: &Program, f: &Function, c: CandidateV) -> CapClass {
    if c.kind == CandKind::Select {
        if c.arm_locs.len() > 0 && arms_unbuffered(f, c.arm_locs) {
            CapClass::Unbuffered
        } else {
            CapClass::Silent
        }
    } else {
        match capacity(f, c.alloc_value) {
            Some(n) => if n == 0 || c.kind == CandKind::Recv {
                CapClass::Unbuffered
            } else {
                match p.body(c.callee) {
                    Some(g) => if c.op_block < g.blocks@.len() && !reaches_plus(
                        succ_graph(&g),
                        c.op_block as int,
                        c.op_block as int,
                    ) {
                        CapClass::BufferedConst(n)
                    } else {
                        CapClass::Silent
                    },
                    None => CapClass::Silent,
                }
            },
            None => CapClass::Silent,
        }
    }
}

fn all_arms_unbuffered(f: &Function, arms: &Vec<(u32, Loc)>) -> (r: bool)
    ensures
        r == arms_unbuffered(f, arms_v(arms@)),
{
    let ghost av = arms_v(arms@);
    let mut i: usize = 0;
    while i < arms.len()
        invariant
            i <= arms@.len(),
            av == arms_v(arms@),
            forall|j: int|
                0 <= j < i ==> ((#[trigger] av[j]).1.root matches RootV::Alloc(a) && capacity(
                    f,
                    ValueId(a),
                ) == Some(0u64)),
        decreases arms@.len() - i,
    {
        assert(av[i as int].1 == arms@[i as int].1@);
        let zero = match is_alloc(&arms[i].1) {
            Some(a) => match cap_of(f, ValueId(a)) {
                Some(n) => n == 0,
                None => false,
            },
            None => false,
        };
        if !zero {
            assert(!(av[i as int].1.root matches RootV::Alloc(a) && capacity(f, ValueId(a)) == Some(
                0u64,
            )));
            return false;
        }
        i += 1;
    }
    true
}

/// What the capacity says of a candidate.
pub fn cap_class(p: &Program, f: &Function, cand: &Candidate) -> (r: CapClass)
    ensures
        r == classified(p, f, cand@),
{
    if cand.kind == CandKind::Select {
        assert(cand@.arm_locs.len() == cand.arm_locs@.len());
        return if cand.arm_locs.len() > 0 && all_arms_unbuffered(f, &cand.arm_locs) {
            CapClass::Unbuffered
        } else {
            CapClass::Silent
        };
    }
    match cap_of(f, cand.alloc_value) {
        Some(n) => {
            if n == 0 || cand.kind == CandKind::Recv {
                return CapClass::Unbuffered;
            }
            match p.func(cand.callee) {
                Some(g) => {
                    let cyclic = cyclic_blocks(g);
                    if cand.op_block < cyclic.len() && !cyclic[cand.op_block] {
                        CapClass::BufferedConst(n)
                    } else {
                        CapClass::Silent
                    }
                },
                None => CapClass::Silent,
            }
        },
        None => CapClass::Silent,
    }
}

// ---- Queries ----

/// The variables of constants, with a prefix.
pub open spec fn prefix_map(consts: Seq<(Seq<char>, Sort)>, prefix: Seq<char>, n: int) -> Map<
    Seq<char>,
    TermV,
>
    decreases n,
{
    if n <= 0 {
        Map::empty()
    } else {
        prefix_map(consts, prefix, n - 1).insert(
            consts[n - 1].0,
            TermV::Var(prefix + consts[n - 1].0, consts[n - 1].1),
        )
    }
}

/// Constants with a prefix.
pub open spec fn prefix_consts(consts: Seq<(Seq<char>, Sort)>, prefix: Seq<char>) -> Seq<
    (Seq<char>, Sort),
> {
    Seq::new(consts.len(), |i: int| (prefix + consts[i].0, consts[i].1))
}

/// Whether every term fits the renaming.
pub open spec fn all_fit(ts: Seq<TermV>, m: Map<Seq<char>, TermV>) -> bool {
    forall|i: int| 0 <= i < ts.len() ==> (#[trigger] ts[i]).subst_fits(m)
}

/// All terms renamed.
pub open spec fn all_renamed(ts: Seq<TermV>, m: Map<Seq<char>, TermV>) -> Seq<TermV> {
    Seq::new(ts.len(), |i: int| ts[i].subst(m))
}

/// The query with every constant renamed by a prefix; there unless a variable is used with
/// another sort than it is declared with.
pub open spec fn prefixed_query(q: QueryV, prefix: Seq<char>) -> Option<QueryV> {
    let m = prefix_map(q.consts, prefix, q.consts.len() as int);
    if all_fit(q.asserts, m) {
        Some(
            QueryV {
                consts: prefix_consts(q.consts, prefix),
                asserts: all_renamed(q.asserts, m),
            },
        )
    } else {
        None
    }
}

fn joined_name(prefix: &str, name: &str) -> (r: String)
    ensures
        r@ == prefix@ + name@,
{
    let mut s = prefix.to_string();
    s.append(name);
    s
}

/// Renames every constant of `q` by a prefix, so that it shares no name with another query.
pub fn prefixed(q: &Query, prefix: &str) -> (r: Option<Query>)
    ensures
        match r {
            Some(x) => prefixed_query(q@, prefix@) == Some(x@),
            None => prefixed_query(q@, prefix@) is None,
        },
{
    let ghost cv = consts_v(q.consts@);
    let ghost full = prefix_map(cv, prefix@, cv.len() as int);
    let mut m: SortedMap<String, Term> = SortedMap::new();
    let mut consts: Vec<Const> = Vec::new();
    let mut i: usize = 0;
    while i < q.consts.len()
        invariant
            i <= q.consts@.len(),
            cv == consts_v(q.consts@),
            m.wf(),
            m@ == prefix_map(cv, prefix@, i as int),
            consts@.len() == i,
            forall|j: int|
                0 <= j < i ==> (#[trigger] consts@[j]).0@ == prefix@ + cv[j].0 && consts@[j].1 == cv[j].1,
        decreases q.consts@.len() - i,
    {
        assert(cv[i as int] == (q.consts@[i as int].0@, q.consts@[i as int].1));
        let name = joined_name(prefix, q.consts[i].0.as_str());
        m.insert(q.consts[i].0.clone(), Term::var(name.as_str(), q.consts[i].1));
        consts.push((name, q.consts[i].1));
        i += 1;
    }
    assert(m@ == full);
    assert(consts_v(consts@) =~= prefix_consts(cv, prefix@));
    let ghost av = terms(q.asserts@);
    let mut asserts: Vec<Term> = Vec::new();
    let mut k: usize = 0;
    while k < q.asserts.len()
        invariant
            k <= q.asserts@.len(),
            av == terms(q.asserts@),
            m.wf(),
            m@ == full,
            full == prefix_map(q@.consts, prefix@, q@.consts.len() as int),
            av == q@.asserts,
            asserts@.len() == k,
            forall|j: int|
                0 <= j < k ==> (#[trigger] av[j]).subst_fits(full) && asserts@[j]@ == av[j].subst(full),
        decreases q.asserts@.len() - k,
    {
        assert(av[k as int] == q.asserts@[k as int]@);
        match q.asserts[k].substitute(&m) {
            Some(t) => {
                asserts.push(t);
            },
            None => {
                assert(!all_fit(av, full));
                return None;
            },
        }
        k += 1;
    }
    assert(terms(asserts@) =~= all_renamed(av, full));
    Some(Query { consts, asserts })
}

/// `s` without repetitions of the element before.
pub open spec fn dedup(s: Seq<(Seq<char>, Sort)>) -> Seq<(Seq<char>, Sort)>
    decreases s.len(),
{
    if s.len() <= 1 {
        s
    } else {
        let before = dedup(s.drop_last());
        if s[s.len() - 2] == s.last() { before } else { before.push(s.last()) }
    }
}

/// The query that asks for both: constants sorted and without repetition, then all
/// assertions.
pub open spec fn conjoined(a: QueryV, b: QueryV) -> QueryV {
    QueryV { consts: dedup(sorted_consts(a.consts + b.consts)), asserts: a.asserts + b.asserts }
}

fn dedup_consts(v: &Vec<Const>) -> (r: Vec<Const>)
    ensures
        consts_v(r@) == dedup(consts_v(v@)),
{
    let ghost cv = consts_v(v@);
    let mut out: Vec<Const> = Vec::new();
    let mut i: usize = 0;
    assert(consts_v(out@) =~= cv.take(0));
    assert(dedup(cv.take(0)) =~= cv.take(0));
    while i < v.len()
        invariant
            i <= v@.len(),
            cv == consts_v(v@),
            consts_v(out@) == dedup(cv.take(i as int)),
        decreases v@.len() - i,
    {
        let ghost before = out@;
        let ghost t = cv.take(i as int + 1);
        assert(t.drop_last() =~= cv.take(i as int));
        assert(cv[i as int] == (v@[i as int].0@, v@[i as int].1));
        let repeated = if i > 0 {
            assert(cv[i - 1] == (v@[i - 1].0@, v@[i - 1].1));
            v[i - 1].0 == v[i].0 && v[i - 1].1 == v[i].1
        } else {
            false
        };
        if !repeated {
            out.push((v[i].0.clone(), v[i].1));
            assert(consts_v(out@) =~= consts_v(before).push(cv[i as int]));
        }
        if i == 0 {
            assert(t =~= seq![cv[0]]);
            assert(consts_v(out@) =~= t);
        }
        i += 1;
    }
    assert(cv.take(i as int) =~= cv);
    out
}

/// The query that asks for both.
pub fn conjoin(a: Query, b: Query) -> (r: Query)
    ensures
        r@ == conjoined(a@, b@),
{
    let ghost ac = consts_v(a.consts@);
    let ghost bc = consts_v(b.consts@);
    let ghost aa = terms(a.asserts@);
    let ghost ba = terms(b.asserts@);
    let mut consts = a.consts;
    let mut more = b.consts;
    consts.append(&mut more);
    assert(consts_v(consts@) =~= ac + bc);
    let mut asserts = a.asserts;
    let mut rest = b.asserts;
    asserts.append(&mut rest);
    assert(terms(asserts@) =~= aa + ba);
    let sorted = sort_consts(&consts);
    Query { consts: dedup_consts(&sorted), asserts }
}

/// How many of the first `i` instructions of block `b` send on `l`.
pub open spec fn sends_in(f: &Function, b: int, l: LocV, i: int) -> nat
    decreases i,
{
    if i <= 0 {
        0
    } else {
        sends_in(f, b, l, i - 1) + (if (f.blocks@[b].instrs@[i - 1].op matches Op::Send { chan, .. }
            && resolved(f, chan) == l) {
            1nat
        } else {
            0nat
        })
    }
}

/// How many instructions of block `b` before `upto` send on `l`.
pub open spec fn sends_before(f: &Function, b: int, l: LocV, upto: int) -> nat {
    if 0 <= b < f.blocks@.len() {
        let n = f.blocks@[b].instrs@.len() as int;
        sends_in(f, b, l, if upto < n { upto } else { n })
    } else {
        0
    }
}

/// How many instructions of block `b` send on `l`.
pub open spec fn sends_of(f: &Function, b: int, l: LocV) -> nat {
    if 0 <= b < f.blocks@.len() {
        sends_in(f, b, l, f.blocks@[b].instrs@.len() as int)
    } else {
        0
    }
}

proof fn lemma_sends_bound(f: &Function, b: int, l: LocV, i: int)
    ensures
        i >= 0 ==> sends_in(f, b, l, i) <= i,
    decreases i,
{
    if i > 0 {
        lemma_sends_bound(f, b, l, i - 1);
    }
}

fn count_sends(f: &Function, b: usize, l: &Loc, upto: usize) -> (r: usize)
    requires
        b < f.blocks@.len(),
        upto <= f.blocks@[b as int].instrs@.len(),
    ensures
        r == sends_in(f, b as int, l@, upto as int),
{
    let mut n: usize = 0;
    let mut i: usize = 0;
    while i < upto
        invariant
            i <= upto,
            b < f.blocks@.len(),
            upto <= f.blocks@[b as int].instrs@.len(),
            n == sends_in(f, b as int, l@, i as int),
            n <= i,
        decreases upto - i,
    {
        if let Op::Send { chan, .. } = &f.blocks[b].instrs[i].op {
            if resolve_loc(f, *chan).same(l) {
                n += 1;
            }
        }
        i += 1;
    }
    n
}

/// How many instructions of block `b` send on `l`: those before `upto`, or all.
pub fn sends_on_loc_in(f: &Function, b: usize, l: &Loc, upto: Option<usize>) -> (r: usize)
    ensures
        r == (match upto {
            Some(u) => sends_before(f, b as int, l@, u as int),
            None => sends_of(f, b as int, l@),
        }),
{
    if b >= f.blocks.len() {
        return 0;
    }
    let n = f.blocks[b].instrs.len();
    match upto {
        Some(u) => count_sends(f, b, l, if u < n {
            u
        } else {
            n
        }),
        None => count_sends(f, b, l, n),
    }
}

/// Whether a path leads from block `b` to block `to`, and they differ.
pub open spec fn leads_to(dag: Seq<Seq<u32>>, b: int, to: int) -> bool {
    b != to && reaches_plus(dag, b, to)
}

/// How full the buffer is when `block` is reached, counting blocks below `b`: the term, and
/// the number of sends counted. `None` where the count does not fit.
pub open spec fn pending(
    f: &Function,
    e: EncodedV,
    l: LocV,
    block: int,
    instr: int,
    b: int,
) -> Option<(TermV, nat)>
    decreases b,
{
    if b <= 0 {
        let own = sends_before(f, block, l, instr);
        if own <= u32::MAX { Some((TermV::BvLit(32, own as u128), own)) } else { None }
    } else {
        match pending(f, e, l, block, instr, b - 1) {
            Some((t, total)) => {
                let n = sends_of(f, b - 1, l);
                if !leads_to(e.dag, b - 1, block) || n == 0 {
                    Some((t, total))
                } else if total + n > u32::MAX {
                    None
                } else {
                    match e.guard(b - 1) {
                        Some(g) => match mk_ite(g, TermV::BvLit(32, n as u128), TermV::BvLit(32, 0)) {
                            Some(inc) => match mk_bin(BvBinOp::Add, t, inc) {
                                Some(s) => Some((s, total + n)),
                                None => None,
                            },
                            None => None,
                        },
                        None => None,
                    }
                }
            },
            None => None,
        }
    }
}

/// That the buffer of capacity `cap` is full when the send at `instr` of `block` is reached:
/// the sends before it, in its own block and in reached blocks that lead to it, are not fewer
/// than the capacity.
pub open spec fn buffer_full(
    f: &Function,
    e: EncodedV,
    l: LocV,
    block: int,
    instr: int,
    cap: u64,
) -> Option<TermV> {
    if cap > u32::MAX {
        None
    } else {
        match pending(f, e, l, block, instr, e.dag.len() as int) {
            Some((t, total)) => match mk_compare(BvCmpOp::Ult, t, TermV::BvLit(32, cap as u128)) {
                Some(below) => mk_not(below),
                None => None,
            },
            None => None,
        }
    }
}

/// That the buffer is full when the send is reached.
fn ordinal_conjunct(f: &Function, enc: &EncodedFunc, l: &Loc, block: usize, instr: usize, cap: u64) -> (r: Option<
    Term,
>)
    ensures
        opt_term(r) == buffer_full(f, enc@, l@, block as int, instr as int, cap),
{
    if cap > u32::MAX as u64 {
        return None;
    }
    let ghost e = enc@;
    let ghost lv = l@;
    let n_blocks = enc.dag_succs.len();
    assert(e.dag.len() == n_blocks);
    let ancestors = strict_ancestors(&enc.dag_succs, block);
    let ghost pr = |b: int| b != block && reaches_plus(adj(enc.dag_succs@), b, block as int);
    proof {
        assert(ascending_filter(ancestors@, n_blocks as int, pr));
    }
    let own = sends_on_loc_in(f, block, l, Some(instr));
    if own > u32::MAX as usize {
        proof {
            lemma_pending_none(f, e, lv, block as int, instr as int, n_blocks as int);
        }
        return None;
    }
    let mut term = Term::bv_lit(32, own as u128);
    let mut total: u64 = own as u64;
    let mut q: usize = 0;
    let mut b: usize = 0;
    while b < n_blocks
        invariant
            b <= n_blocks,
            e == enc@,
            lv == l@,
            n_blocks == enc.dag_succs@.len(),
            e.dag.len() == n_blocks,
            cap <= u32::MAX,
            e.dag == adj(enc.dag_succs@),
            pr == (|b: int| b != block && reaches_plus(adj(enc.dag_succs@), b, block as int)),
            ascending_filter(ancestors@, n_blocks as int, pr),
            q <= ancestors@.len(),
            forall|i: int| 0 <= i < q ==> #[trigger] ancestors@[i] < b,
            forall|i: int| q <= i < ancestors@.len() ==> #[trigger] ancestors@[i] >= b,
            total <= u32::MAX,
            pending(f, e, lv, block as int, instr as int, b as int) == Some((term@, total as nat)),
        decreases n_blocks - b,
    {
        let is_ancestor = q < ancestors.len() && ancestors[q] == b;
        assert(is_ancestor == leads_to(e.dag, b as int, block as int)) by {
            if is_ancestor {
                assert(pr(ancestors@[q as int] as int));
            } else if leads_to(e.dag, b as int, block as int) {
                assert(pr(b as int));
                assert(ancestors@.contains(b as usize));
                let i = choose|i: int| 0 <= i < ancestors@.len() && ancestors@[i] == b;
                assert(i >= q);
                assert(ancestors@[q as int] <= ancestors@[i]);
            }
        }
        if is_ancestor {
            q += 1;
            let n = sends_on_loc_in(f, b, l, None);
            if n > 0 {
                if n > u32::MAX as usize || total + n as u64 > u32::MAX as u64 {
                    proof {
                        lemma_pending_stays_none(
                            f,
                            e,
                            lv,
                            block as int,
                            instr as int,
                            b + 1,
                            n_blocks as int,
                        );
                    }
                    return None;
                }
                let next = match enc.guard_term(b) {
                    Some(g) => match Term::ite(g, Term::bv_lit(32, n as u128), Term::bv_lit(32, 0)) {
                        Some(inc) => Term::bv_bin(BvBinOp::Add, term, inc),
                        None => None,
                    },
                    None => None,
                };
                match next {
                    Some(t) => {
                        term = t;
                        total = total + n as u64;
                    },
                    None => {
                        proof {
                            lemma_pending_stays_none(
                                f,
                                e,
                                lv,
                                block as int,
                                instr as int,
                                b + 1,
                                n_blocks as int,
                            );
                        }
                        return None;
                    },
                }
            }
        }
        b += 1;
    }
    match Term::bv_compare(BvCmpOp::Ult, term, Term::bv_lit(32, cap as u128)) {
        Some(below) => Term::not(below),
        None => None,
    }
}

proof fn lemma_pending_none(f: &Function, e: EncodedV, l: LocV, block: int, instr: int, b: int)
    requires
        sends_before(f, block, l, instr) > u32::MAX,
    ensures
        pending(f, e, l, block, instr, b) is None,
    decreases b,
{
    if b > 0 {
        lemma_pending_none(f, e, l, block, instr, b - 1);
    }
}

proof fn lemma_pending_stays_none(
    f: &Function,
    e: EncodedV,
    l: LocV,
    block: int,
    instr: int,
    from: int,
    b: int,
)
    requires
        pending(f, e, l, block, instr, from) is None,
        0 < from <= b,
    ensures
        pending(f, e, l, block, instr, b) is None,
    decreases b,
{
    if b > from {
        lemma_pending_stays_none(f, e, l, block, instr, from, b - 1);
    }
}

// ---- Obligations ----

/// Whether the channels of a candidate leave the spawner.
pub open spec fn channels_escape(f: &Function, c: CandidateV) -> bool {
    if c.kind == CandKind::Select {
        exists|i: int|
            0 <= i < c.arm_locs.len() && (match (#[trigger] c.arm_locs[i]).1.root {
                RootV::Alloc(a) => escaping(f, ValueId(a)),
                _ => true,
            })
    } else {
        escaping(f, c.alloc_value)
    }
}

/// Whether something in the spawner's effects unblocks a candidate.
pub open spec fn has_unblocker(env: EffectsV, c: CandidateV) -> bool {
    if c.kind == CandKind::Select {
        exists|i: int|
            0 <= i < c.arm_locs.len() && arm_counterpart(
                env,
                (#[trigger] c.arm_locs[i]).1,
                c.arm_locs[i].0,
            )
    } else {
        counterpart(env, c.spawner_loc, c.kind)
    }
}

/// The tag of a finding.
pub open spec fn leak_tag(kind: CandKind) -> Seq<char> {
    match kind {
        CandKind::Send => "chan-send-leak"@,
        CandKind::Recv => "chan-recv-leak"@,
        CandKind::Select => "chan-select-leak"@,
    }
}

/// What is reported.
pub open spec fn leak_message(p: &Program, c: CandidateV) -> Seq<char> {
    "goroutine "@ + p.name_of(c.callee) + (match c.kind {
        CandKind::Send
        => " may block forever: send on a spawner-created channel with no receive, close, or select in the spawning environment"@,
        CandKind::Recv
        => " may block forever: receive on a spawner-created channel with no send, close, or select"@,
        CandKind::Select
        => " may block forever: blocking select whose channels have no counterpart operations"@,
    })
}

/// What is asked of the spawned function: that the operation is reached under the function's
/// requirements, with the buffer full if there is one.
pub open spec fn callee_conditions(
    t: TableV,
    g: &Function,
    e: EncodedV,
    c: CandidateV,
    class: CapClass,
) -> Option<Seq<TermV>> {
    let pre = clause_terms(t.summary(c.callee).requires_);
    match class {
        CapClass::BufferedConst(cap) => match buffer_full(
            g,
            e,
            c.callee_loc,
            c.op_block as int,
            c.op_instr as int,
            cap,
        ) {
            Some(full) => Some(pre.push(full)),
            None => None,
        },
        _ => Some(pre),
    }
}

/// What may go wrong with a candidate: the `go` statement is reached in the spawner, and the
/// blocking operation in the spawned function. Candidates in helpers raise nothing.
pub open spec fn leak_obligation(
    p: &Program,
    f: FuncId,
    func: &Function,
    e: EncodedV,
    t: TableV,
    c: CandidateV,
) -> Option<ObligationV> {
    let class = classified(p, func, c);
    if c.hop is Some || channels_escape(func, c) || has_unblocker(t.summary(f).effects, c) || class
        == CapClass::Silent {
        None
    } else {
        match (p.body(c.callee), encoding_with(p, c.callee, t)) {
            (Some(g), Ok(ge)) => match callee_conditions(t, &g, ge, c, class) {
                Some(extra) => match prefixed_query(ge.reach(c.op_block as int, extra), "s_"@) {
                    Some(cq) => Some(
                        ObligationV {
                            tag: leak_tag(c.kind),
                            message: leak_message(p, c),
                            pos: c.go_pos,
                            query: conjoined(
                                e.reach(c.go_block as int, clause_terms(t.summary(f).requires_)),
                                cq,
                            ),
                        },
                    ),
                    None => None,
                },
                None => None,
            },
            _ => None,
        }
    }
}

/// What may go wrong with the first `n` candidates.
pub open spec fn leak_obligations_upto(
    p: &Program,
    f: FuncId,
    func: &Function,
    e: EncodedV,
    t: TableV,
    cs: Seq<CandidateV>,
    n: int,
) -> Seq<ObligationV>
    decreases n,
{
    if n <= 0 {
        Seq::empty()
    } else {
        leak_obligations_upto(p, f, func, e, t, cs, n - 1) + opt_seq(
            leak_obligation(p, f, func, e, t, cs[n - 1]),
        )
    }
}

/// What may go wrong with the goroutines that `f` spawns.
pub open spec fn leak_obligations(p: &Program, f: FuncId, t: TableV) -> Seq<ObligationV> {
    match (p.body(f), encoding_with(p, f, t)) {
        (Some(func), Ok(e)) => {
            let cs = leak_candidates(p, &func);
            leak_obligations_upto(p, f, &func, e, t, cs, cs.len() as int)
        },
        _ => Seq::empty(),
    }
}

fn any_arm_escapes(f: &Function, arms: &Vec<(u32, Loc)>) -> (r: bool)
    ensures
        r == exists|i: int|
            0 <= i < arms@.len() && (match (#[trigger] arms_v(arms@)[i]).1.root {
                RootV::Alloc(a) => escaping(f, ValueId(a)),
                _ => true,
            }),
{
    let ghost av = arms_v(arms@);
    let mut i: usize = 0;
    while i < arms.len()
        invariant
            i <= arms@.len(),
            av == arms_v(arms@),
            forall|j: int|
                0 <= j < i ==> !(match (#[trigger] av[j]).1.root {
                    RootV::Alloc(a) => escaping(f, ValueId(a)),
                    _ => true,
                }),
        decreases arms@.len() - i,
    {
        assert(av[i as int].1 == arms@[i as int].1@);
        let out = match is_alloc(&arms[i].1) {
            Some(a) => escapes(f, ValueId(a)),
            None => true,
        };
        if out {
            return true;
        }
        i += 1;
    }
    false
}

fn any_arm_unblocked(env: &Effects, arms: &Vec<(u32, Loc)>) -> (r: bool)
    requires
        env.wf(),
    ensures
        r == exists|i: int|
            0 <= i < arms@.len() && arm_counterpart(
                env@,
                (#[trigger] arms_v(arms@)[i]).1,
                arms_v(arms@)[i].0,
            ),
{
    let ghost av = arms_v(arms@);
    let mut i: usize = 0;
    while i < arms.len()
        invariant
            i <= arms@.len(),
            env.wf(),
            av == arms_v(arms@),
            forall|j: int| 0 <= j < i ==> !arm_counterpart(env@, (#[trigger] av[j]).1, av[j].0),
        decreases arms@.len() - i,
    {
        assert(av[i as int] == (arms@[i as int].0, arms@[i as int].1@));
        if arm_has_counterpart(env, &arms[i].1, arms[i].0) {
            return true;
        }
        i += 1;
    }
    false
}

fn escapes_spawner(f: &Function, c: &Candidate) -> (r: bool)
    ensures
        r == channels_escape(f, c@),
{
    assert(c@.arm_locs.len() == c.arm_locs@.len());
    if c.kind == CandKind::Select {
        any_arm_escapes(f, &c.arm_locs)
    } else {
        escapes(f, c.alloc_value)
    }
}

fn is_unblocked(env: &Effects, c: &Candidate) -> (r: bool)
    requires
        env.wf(),
    ensures
        r == has_unblocker(env@, c@),
{
    assert(c@.arm_locs.len() == c.arm_locs@.len());
    if c.kind == CandKind::Select {
        any_arm_unblocked(env, &c.arm_locs)
    } else {
        has_counterpart(env, &c.spawner_loc, c.kind)
    }
}

fn tag_and_message(p: &Program, c: &Candidate) -> (r: (&'static str, String))
    ensures
        r.0@ == leak_tag(c.kind),
        r.1@ == leak_message(p, c@),
{
    let mut m = "goroutine ".to_string();
    m.append(p.func_name(c.callee));
    match c.kind {
        CandKind::Send => {
            m.append(
                " may block forever: send on a spawner-created channel with no receive, close, or select in the spawning environment",
            );
            ("chan-send-leak", m)
        },
        CandKind::Recv => {
            m.append(
                " may block forever: receive on a spawner-created channel with no send, close, or select",
            );
            ("chan-recv-leak", m)
        },
        CandKind::Select => {
            m.append(
                " may block forever: blocking select whose channels have no counterpart operations",
            );
            ("chan-select-leak", m)
        },
    }
}

fn callee_query(p: &Program, t: &SummaryTable, c: &Candidate, class: CapClass) -> (r: Option<Query>)
    requires
        t.wf(),
    ensures
        ({
            let want = match (p.body(c.callee), encoding_with(p, c.callee, t@)) {
                (Some(g), Ok(ge)) => match callee_conditions(t@, &g, ge, c@, class) {
                    Some(extra) => prefixed_query(ge.reach(c.op_block as int, extra), "s_"@),
                    None => None,
                },
                _ => None,
            };
            match r {
                Some(q) => want == Some(q@),
                None => want is None,
            }
        }),
{
    let g = match p.func(c.callee) {
        Some(g) => g,
        None => {
            return None;
        },
    };
    let enc = match encode_func_with(p, c.callee, t) {
        Ok(enc) => enc,
        Err(_) => {
            return None;
        },
    };
    let mut extra = preconditions_of(t, c.callee);
    if let CapClass::BufferedConst(cap) = class {
        match ordinal_conjunct(g, &enc, &c.callee_loc, c.op_block, c.op_instr, cap) {
            Some(full) => {
                let ghost before = terms(extra@);
                let ghost fv = full@;
                extra.push(full);
                assert(terms(extra@) =~= before.push(fv));
            },
            None => {
                return None;
            },
        }
    }
    let q = enc.reach_query(c.op_block, extra);
    prefixed(&q, "s_")
}

fn judge_candidate(
    p: &Program,
    f: FuncId,
    func: &Function,
    enc: &EncodedFunc,
    t: &SummaryTable,
    env: &Effects,
    pre: &Vec<Term>,
    c: &Candidate,
) -> (r: Option<Obligation>)
    requires
        t.wf(),
        env.wf(),
        env@ == t.summary(f).effects,
        terms(pre@) == clause_terms(t.summary(f).requires_),
    ensures
        match r {
            Some(o) => leak_obligation(p, f, func, enc@, t@, c@) == Some(o@),
            None => leak_obligation(p, f, func, enc@, t@, c@) is None,
        },
{
    if c.hop.is_some() || escapes_spawner(func, c) || is_unblocked(env, c) {
        return None;
    }
    let class = cap_class(p, func, c);
    if class == CapClass::Silent {
        return None;
    }
    match callee_query(p, t, c, class) {
        Some(cq) => {
            let (tag, message) = tag_and_message(p, c);
            Some(
                Obligation {
                    tag: tag.to_string(),
                    message,
                    pos: clone_pos(&c.go_pos),
                    query: conjoin(enc.reach_query(c.go_block, Term::dup_list(pre)), cq),
                },
            )
        },
        None => None,
    }
}

impl Checker for LeakChecker {
    open spec fn name_of(&self) -> Seq<char> {
        "goroutine-leak"@
    }

    open spec fn version_of(&self) -> u32 {
        1
    }

    open spec fn requires_asked(&self, p: &Program, f: FuncId, t: TableV) -> Seq<QueryV> {
        Seq::empty()
    }

    open spec fn requires_of(
        &self,
        p: &Program,
        f: FuncId,
        t: TableV,
        verdicts: Seq<SatResult>,
    ) -> Seq<ClauseV> {
        Seq::empty()
    }

    open spec fn ensures_asked(&self, p: &Program, f: FuncId, t: TableV) -> Seq<QueryV> {
        Seq::empty()
    }

    open spec fn ensures_of(
        &self,
        p: &Program,
        f: FuncId,
        t: TableV,
        verdicts: Seq<SatResult>,
    ) -> Seq<ClauseV> {
        Seq::empty()
    }

    open spec fn obligations_of(&self, p: &Program, f: FuncId, t: TableV) -> Seq<ObligationV> {
        leak_obligations(p, f, t)
    }

    fn name(&self) -> (r: &'static str) {
        "goroutine-leak"
    }

    fn version(&self) -> (r: u32) {
        1
    }

    /// Nothing is asked: a leak is no contract.
    fn requires_queries(&self, p: &Program, f: FuncId, t: &SummaryTable) -> (r: Vec<Query>) {
        let r: Vec<Query> = Vec::new();
        assert(queries_v(r@) =~= Seq::<QueryV>::empty());
        r
    }

    /// Nothing is required.
    fn infer_requires(&self, p: &Program, f: FuncId, t: &SummaryTable, verdicts: &Vec<SatResult>) -> (r: Vec<
        Clause,
    >) {
        let r: Vec<Clause> = Vec::new();
        assert(clauses(r@) =~= Seq::<ClauseV>::empty());
        r
    }

    /// Nothing is asked.
    fn ensures_queries(&self, p: &Program, f: FuncId, t: &SummaryTable) -> (r: Vec<Query>) {
        let r: Vec<Query> = Vec::new();
        assert(queries_v(r@) =~= Seq::<QueryV>::empty());
        r
    }

    fn skipped_ensures(&self, p: &Program, f: FuncId, t: &SummaryTable, verdicts: &Vec<SatResult>) -> (r: Vec<
        bool,
    >) {
        Vec::new()
    }

    /// Nothing is guaranteed.
    fn infer_ensures(&self, p: &Program, f: FuncId, t: &SummaryTable, verdicts: &Vec<SatResult>) -> (r: Vec<
        Clause,
    >) {
        let r: Vec<Clause> = Vec::new();
        assert(clauses(r@) =~= Seq::<ClauseV>::empty());
        r
    }

    /// One obligation per blocking operation on a channel that stays in the spawner and that
    /// nothing unblocks.
    fn obligations(&self, p: &Program, f: FuncId, t: &SummaryTable) -> (r: Vec<Obligation>) {
        let mut out: Vec<Obligation> = Vec::new();
        assert(obligations_v(out@) =~= Seq::<ObligationV>::empty());
        let func = match p.func(f) {
            Some(func) => func,
            None => {
                return out;
            },
        };
        let enc = match encode_func_with(p, f, t) {
            Ok(enc) => enc,
            Err(_) => {
                return out;
            },
        };
        let env = match t.effects(f) {
            Some(e) => e.dup(),
            None => Effects::top(),
        };
        let pre = preconditions_of(t, f);
        let cs = candidates(p, func);
        let ghost cv = cands_v(cs@);
        assert(cv.len() == cs@.len());
        let mut i: usize = 0;
        while i < cs.len()
            invariant
                i <= cs@.len(),
                cv == cands_v(cs@),
                t.wf(),
                env.wf(),
                env@ == t.summary(f).effects,
                terms(pre@) == clause_terms(t.summary(f).requires_),
                obligations_v(out@) == leak_obligations_upto(p, f, func, enc@, t@, cv, i as int),
            decreases cs@.len() - i,
        {
            assert(cv[i as int] == cs@[i as int]@);
            let ghost before = out@;
            match judge_candidate(p, f, func, &enc, t, &env, &pre, &cs[i]) {
                Some(o) => {
                    let ghost o_v = o@;
                    out.push(o);
                    assert(obligations_v(out@) =~= obligations_v(before) + seq![o_v]);
                },
                None => {
                    assert(obligations_v(out@) =~= obligations_v(before) + Seq::<ObligationV>::empty());
                },
            }
            i += 1;
        }
        out
    }

    fn inference_fails(
        &self,
        p: &Program,
        f: FuncId,
        t: &SummaryTable,
        rv: &Vec<SatResult>,
        ev: &Vec<SatResult>,
    ) -> (r: bool) {
        false
    }

    fn checking_fails(&self, p: &Program, f: FuncId, t: &SummaryTable) -> (r: bool) {
        false
    }
}

// ---- Laws ----

/// A candidate that something in the spawner's effects unblocks, or whose channel leaves the
/// spawner, is never reported.
pub proof fn unblocked_never_reported(
    p: &Program,
    f: FuncId,
    func: &Function,
    e: EncodedV,
    t: TableV,
    c: CandidateV,
)
    requires
        has_unblocker(t.summary(f).effects, c) || channels_escape(func, c),
    ensures
        leak_obligation(p, f, func, e, t, c) is None,
{
}

/// A blocked send or receive in an environment that may do anything is never reported.
pub proof fn unknown_environment_unblocks(c: CandidateV)
    ensures
        c.kind != CandKind::Select ==> has_unblocker(crate::effects::effects_top(), c),
        c.kind == CandKind::Select && c.arm_locs.len() > 0 ==> has_unblocker(
            crate::effects::effects_top(),
            c,
        ),
{
    let top = crate::effects::effects_top();
    assert(top.chan.contains_key(loc_unknown()));
    if c.kind == CandKind::Select && c.arm_locs.len() > 0 {
        assert(arm_counterpart(top, c.arm_locs[0].1, c.arm_locs[0].0));
    }
}

/// Renaming by a prefix leaves no declared name without it, so that a query whose names do not
/// have the prefix shares none.
pub proof fn prefixed_names_differ(q: QueryV, prefix: Seq<char>, name: Seq<char>, i: int)
    requires
        prefixed_query(q, prefix) is Some,
        0 <= i < q.consts.len(),
        !prefix.is_prefix_of(name),
    ensures
        prefixed_query(q, prefix).unwrap().consts[i].0 != name,
{
    let n = prefixed_query(q, prefix).unwrap().consts[i].0;
    assert(n == prefix + q.consts[i].0);
    assert(n.take(prefix.len() as int) =~= prefix);
    assert(prefix.is_prefix_of(n)) by {
        assert(prefix =~= n.subrange(0, prefix.len() as int));
    }
}

} // verus!
