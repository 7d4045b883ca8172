//! The engine: components of the call graph callees first, then the findings function by
//! function.
//!
//! Results are a function of the program and of the solver's answers. The order of the waves
//! is that of a parallel schedule; within a wave no component depends on another.

use vstd::prelude::*;
use crate::annotations::Annotations;
use crate::answers::Answers;
use crate::checker::{findings_v, Checker, Finding, FindingV};
use crate::checkers::AnyChecker;
use crate::codec::{opt_view, views, Codec};
use crate::effects::effects_empty;
use crate::findings::{check_function, findings_asked, findings_diags, function_findings};
use crate::fixpoint::{
    analyze_component, component, members_fit, referents, set_summary, with_summary, AnswersV,
    ComponentV,
};
use crate::ir::{same_text, CallGraph, FuncId, Program, Sccs};
use crate::order::{codes, lex_lt};
use crate::prepass::{clean, value_clean, Domains};
use crate::query_cache::OutcomeV;
use crate::scc_cache::{MemberEntry, MemberEntryV, SccEntry};
use crate::sort::{sort_items, sorted, sorting_sorts, Rank};
use crate::summary::{
    havoc_with, slot_v, summary_havoc_with, Summary, SummaryTable, SummaryV, TableV,
};
use crate::text::text_before;

verus! {

/// What a solver is used for: to infer clauses, many small questions, or to confirm what is
/// reported.
#[derive(Debug, Clone, Copy, PartialEq, Eq, Structural)]
pub enum BackendRole {
    Infer,
    Findings,
}

/// The options of the fixpoint.
#[derive(Debug, Clone, Copy, PartialEq, Eq, Structural)]
pub struct Options {
    /// After how many further rounds a component that still changes is widened.
    pub widen_after: u32,
}

impl Default for Options {
    fn default() -> (r: Options)
        ensures
            r.widen_after == 3,
    {
        Options { widen_after: 3 }
    }
}

/// What an analysis needs besides the program.
#[derive(Debug, PartialEq, Eq)]
pub struct EngineConfig {
    pub opts: Options,
    /// Where results are cached, if they are.
    pub cache_dir: Option<String>,
    /// Where the questions are written to, if they are.
    pub emit_smt: Option<String>,
    pub annotations: Annotations,
    /// The version of what annotations mean.
    pub annotation_version: u32,
}

impl Default for EngineConfig {
    fn default() -> (r: EngineConfig)
        ensures
            r.opts.widen_after == 3,
            r.cache_dir is None,
            r.emit_smt is None,
            r.annotations.funcs@.len() == 0,
            r.annotations.findings@.len() == 0,
            r.annotation_version == 0,
    {
        EngineConfig {
            opts: Options { widen_after: 3 },
            cache_dir: None,
            emit_smt: None,
            annotations: Annotations { funcs: Vec::new(), findings: Vec::new() },
            annotation_version: 0,
        }
    }
}

// ---- Waves ----

/// One more than the largest depth of the first `k` callees, 0 without any.
pub open spec fn depth_above(callees: Seq<usize>, depths: Seq<nat>, k: nat) -> nat
    decreases k,
{
    if k == 0 {
        0
    } else {
        let before = depth_above(callees, depths, (k - 1) as nat);
        let d = depths[callees[k - 1] as int] + 1;
        if d > before {
            d
        } else {
            before
        }
    }
}

/// The depths of the first `n` components: the longest chains of calls below them.
pub open spec fn depths_upto(sccs: &Sccs, n: nat) -> Seq<nat>
    decreases n,
{
    if n == 0 {
        Seq::empty()
    } else {
        let before = depths_upto(sccs, (n - 1) as nat);
        let callees = sccs.callee_sccs@[n - 1]@;
        before.push(depth_above(callees, before, callees.len()))
    }
}

/// The depths of all components.
pub open spec fn depths_of(sccs: &Sccs) -> Seq<nat> {
    depths_upto(sccs, sccs.schedule@.len())
}

/// The largest of the first `n` depths.
pub open spec fn deepest(depths: Seq<nat>, n: nat) -> nat
    decreases n,
{
    if n == 0 {
        0
    } else {
        let before = deepest(depths, (n - 1) as nat);
        if depths[n - 1] > before {
            depths[n - 1]
        } else {
            before
        }
    }
}

/// Those of the first `n` components that have depth `d`, in schedule order.
pub open spec fn wave_upto(depths: Seq<nat>, d: nat, n: nat) -> Seq<usize>
    decreases n,
{
    if n == 0 {
        Seq::empty()
    } else {
        let before = wave_upto(depths, d, (n - 1) as nat);
        if depths[n - 1] == d {
            before.push((n - 1) as usize)
        } else {
            before
        }
    }
}

/// The components by depth.
pub open spec fn waves_of(sccs: &Sccs) -> Seq<Seq<usize>> {
    let depths = depths_of(sccs);
    Seq::new(deepest(depths, depths.len()) + 1, |d: int| wave_upto(depths, d as nat, depths.len()))
}

/// A component is deeper than all that it calls.
pub proof fn lemma_depths(sccs: &Sccs, n: nat, funcs: nat)
    requires
        sccs.wf(funcs),
        n <= sccs.schedule@.len(),
    ensures
        depths_upto(sccs, n).len() == n,
        forall|i: int| 0 <= i < n ==> (#[trigger] depths_upto(sccs, n)[i]) <= i,
        forall|i: int, j: int|
            0 <= i < n && 0 <= j < sccs.callee_sccs@[i]@.len() ==> depths_upto(
                sccs,
                n,
            )[#[trigger] sccs.callee_sccs@[i]@[j] as int] < depths_upto(sccs, n)[i],
    decreases n,
{
    if n > 0 {
        let k = (n - 1) as nat;
        lemma_depths(sccs, k, funcs);
        let before = depths_upto(sccs, k);
        let after = depths_upto(sccs, n);
        let callees = sccs.callee_sccs@[k as int]@;
        assert forall|j: int| 0 <= j < callees.len() implies (#[trigger] callees[j]) < k by {
            assert(sccs.callee_sccs@[k as int]@[j] < k);
        }
        lemma_depth_above(callees, before, callees.len());
        assert forall|i: int, j: int|
            0 <= i < n && 0 <= j < sccs.callee_sccs@[i]@.len() implies after[#[trigger] sccs.callee_sccs@[i]@[j] as int]
            < after[i] by {
            let d = sccs.callee_sccs@[i]@[j];
            assert(d < i);
            if i == k {
                assert(callees[j] == d);
            } else {
                assert(before[d as int] < before[i]);
            }
        }
    }
}

proof fn lemma_depth_above(callees: Seq<usize>, depths: Seq<nat>, k: nat)
    requires
        k <= callees.len(),
        forall|j: int| 0 <= j < callees.len() ==> (#[trigger] callees[j]) < depths.len(),
        forall|i: int| 0 <= i < depths.len() ==> (#[trigger] depths[i]) <= i,
    ensures
        depth_above(callees, depths, k) <= depths.len(),
        forall|j: int|
            0 <= j < k ==> depths[#[trigger] callees[j] as int] < depth_above(callees, depths, k),
    decreases k,
{
    if k > 0 {
        lemma_depth_above(callees, depths, (k - 1) as nat);
    }
}

proof fn lemma_deepest(depths: Seq<nat>, n: nat)
    requires
        n <= depths.len(),
    ensures
        forall|i: int| 0 <= i < n ==> (#[trigger] depths[i]) <= deepest(depths, n),
        deepest(depths, n) == 0 || exists|i: int|
            0 <= i < n && #[trigger] depths[i] == deepest(depths, n),
    decreases n,
{
    if n > 0 {
        lemma_deepest(depths, (n - 1) as nat);
        let b = deepest(depths, (n - 1) as nat);
        if depths[n - 1] > b {
            assert(depths[n - 1] == deepest(depths, n));
        } else if b > 0 {
            let i = choose|i: int| 0 <= i < n - 1 && #[trigger] depths[i] == b;
            assert(depths[i] == deepest(depths, n));
        }
    }
}

/// A wave lists the components of its depth.
pub proof fn lemma_wave(depths: Seq<nat>, d: nat, n: nat)
    requires
        n <= depths.len(),
        n <= usize::MAX,
    ensures
        forall|k: int|
            0 <= k < wave_upto(depths, d, n).len() ==> (#[trigger] wave_upto(depths, d, n)[k]) < n
                && depths[wave_upto(depths, d, n)[k] as int] == d,
        forall|i: int|
            0 <= i < n && #[trigger] depths[i] == d ==> wave_upto(depths, d, n).contains(i as usize),
    decreases n,
{
    if n > 0 {
        let m = (n - 1) as nat;
        lemma_wave(depths, d, m);
        let before = wave_upto(depths, d, m);
        let after = wave_upto(depths, d, n);
        assert forall|i: int| 0 <= i < n && #[trigger] depths[i] == d implies after.contains(
            i as usize,
        ) by {
            if i < m {
                assert(before.contains(i as usize));
                let k = choose|k: int| 0 <= k < before.len() && before[k] == i as usize;
                assert(after[k] == i as usize);
            } else {
                assert(after[before.len() as int] == i as usize);
            }
        }
    }
}

/// Every component is in the wave of its depth, and every callee of a component is in an
/// earlier wave.
pub proof fn callees_are_in_earlier_waves(sccs: &Sccs, funcs: nat, i: int)
    requires
        sccs.wf(funcs),
        0 <= i < sccs.schedule@.len(),
        sccs.schedule@.len() <= usize::MAX,
    ensures
        ({
            let d = depths_of(sccs);
            &&& d[i] < waves_of(sccs).len()
            &&& waves_of(sccs)[d[i] as int].contains(i as usize)
            &&& forall|j: int|
                0 <= j < sccs.callee_sccs@[i]@.len() ==> d[#[trigger] sccs.callee_sccs@[i]@[j] as int]
                    < d[i]
        }),
{
    let d = depths_of(sccs);
    lemma_depths(sccs, sccs.schedule@.len(), funcs);
    lemma_deepest(d, d.len());
    assert(d[i] <= deepest(d, d.len()));
    lemma_wave(d, d[i], d.len());
}

/// The models of waves.
pub open spec fn waves_v(v: Seq<Vec<usize>>) -> Seq<Seq<usize>> {
    Seq::new(v.len(), |i: int| v[i]@)
}

/// The models of depths.
pub open spec fn depths_v(v: Seq<usize>) -> Seq<nat> {
    Seq::new(v.len(), |i: int| v[i] as nat)
}

fn depths(sccs: &Sccs, funcs: usize) -> (r: Vec<usize>)
    requires
        sccs.wf(funcs as nat),
    ensures
        depths_v(r@) == depths_of(sccs),
        r@.len() == sccs.schedule@.len(),
{
    let n = sccs.schedule.len();
    let mut out: Vec<usize> = Vec::new();
    let mut i: usize = 0;
    assert(depths_v(out@) =~= Seq::<nat>::empty());
    while i < n
        invariant
            i <= n,
            n == sccs.schedule@.len(),
            sccs.wf(funcs as nat),
            out@.len() == i,
            depths_v(out@) == depths_upto(sccs, i as nat),
        decreases n - i,
    {
        let ghost dv = depths_v(out@);
        let ghost callees = sccs.callee_sccs@[i as int]@;
        proof {
            lemma_depths(sccs, i as nat, funcs as nat);
        }
        let mut best: usize = 0;
        let mut k: usize = 0;
        while k < sccs.callee_sccs[i].len()
            invariant
                i < n,
                n == sccs.schedule@.len(),
                sccs.wf(funcs as nat),
                out@.len() == i,
                dv == depths_v(out@),
                callees == sccs.callee_sccs@[i as int]@,
                k <= callees.len(),
                forall|j: int| 0 <= j < i ==> (#[trigger] dv[j]) <= j,
                best == depth_above(callees, dv, k as nat),
            decreases callees.len() - k,
        {
            let c = sccs.callee_sccs[i][k];
            assert(dv[c as int] <= c);
            let d = out[c] + 1;
            if d > best {
                best = d;
            }
            k += 1;
        }
        let ghost before = out@;
        out.push(best);
        assert(depths_v(out@) =~= dv.push(best as nat));
        i += 1;
    }
    out
}

/// The components by depth; within a depth in schedule order. `funcs` is the number of
/// functions of the program.
pub fn waves(sccs: &Sccs, funcs: usize) -> (r: Vec<Vec<usize>>)
    requires
        sccs.wf(funcs as nat),
    ensures
        waves_v(r@) == waves_of(sccs),
{
    let ds = depths(sccs, funcs);
    let ghost dv = depths_v(ds@);
    let n = ds.len();
    let mut max: usize = 0;
    let mut i: usize = 0;
    while i < n
        invariant
            i <= n,
            n == ds@.len(),
            dv == depths_v(ds@),
            max == deepest(dv, i as nat),
        decreases n - i,
    {
        if ds[i] > max {
            max = ds[i];
        }
        i += 1;
    }
    proof {
        lemma_depths(sccs, sccs.schedule@.len(), funcs as nat);
        lemma_deepest(dv, dv.len());
        if max > 0 {
            let j = choose|j: int| 0 <= j < dv.len() && #[trigger] dv[j] == max as nat;
            assert(depths_of(sccs)[j] <= j);
            assert(max < n);
        }
    }
    let mut out: Vec<Vec<usize>> = Vec::new();
    let mut d: usize = 0;
    while d <= max
        invariant
            d <= max + 1,
            max < usize::MAX,
            out@.len() == d,
            forall|k: int| 0 <= k < d ==> (#[trigger] out@[k])@ == wave_upto(dv, k as nat, 0),
        decreases max + 1 - d,
    {
        out.push(Vec::new());
        d += 1;
    }
    let mut j: usize = 0;
    while j < n
        invariant
            j <= n,
            n == ds@.len(),
            dv == depths_v(ds@),
            out@.len() == max + 1,
            forall|i: int| 0 <= i < n ==> (#[trigger] dv[i]) <= max,
            forall|k: int|
                0 <= k < out@.len() ==> (#[trigger] out@[k])@ == wave_upto(dv, k as nat, j as nat),
        decreases n - j,
    {
        let d = ds[j];
        assert(dv[j as int] == d);
        out[d].push(j);
        j += 1;
    }
    assert(waves_v(out@) =~= waves_of(sccs));
    out
}

// ---- Components ----

/// What a cached component tells of one function's findings.
#[derive(Debug, PartialEq, Eq)]
pub struct Replay {
    pub findings: Vec<Finding>,
    pub diags: Vec<String>,
}

/// The model of a [`Replay`].
pub struct ReplayV {
    pub findings: Seq<FindingV>,
    pub diags: Seq<Seq<char>>,
}

impl View for Replay {
    type V = ReplayV;

    open spec fn view(&self) -> ReplayV {
        ReplayV { findings: findings_v(self.findings@), diags: views(self.diags@) }
    }
}

/// The state of an analysis.
struct Run {
    table: SummaryTable,
    asked: Vec<String>,
    diags: Vec<Option<String>>,
    replays: Vec<Option<Replay>>,
    fresh: Vec<bool>,
    hits: u64,
    misses: u64,
}

/// The model of the state of an analysis.
pub struct RunV {
    /// The summaries so far.
    pub table: TableV,
    pub asked: Seq<Seq<char>>,
    /// What went wrong with each function.
    pub diags: Seq<Option<Seq<char>>>,
    /// The functions whose findings come from the cache.
    pub replays: Seq<Option<ReplayV>>,
    /// The components that were analysed and are to be cached.
    pub fresh: Seq<bool>,
    pub hits: nat,
    pub misses: nat,
}

/// The models of what may be missing.
pub open spec fn opt_views<T: View>(v: Seq<Option<T>>) -> Seq<Option<T::V>> {
    Seq::new(v.len(), |i: int| opt_view(v[i]))
}

impl View for Run {
    type V = RunV;

    closed spec fn view(&self) -> RunV {
        RunV {
            table: self.table@,
            asked: views(self.asked@),
            diags: opt_views(self.diags@),
            replays: opt_views(self.replays@),
            fresh: self.fresh@,
            hits: self.hits as nat,
            misses: self.misses as nat,
        }
    }
}

/// Whether a cached component is about these functions: same number, same names.
pub open spec fn entry_fits(p: &Program, members: Seq<FuncId>, e: Seq<MemberEntryV>) -> bool {
    members.len() == e.len() && forall|i: int|
        0 <= i < members.len() ==> p.name_of(#[trigger] members[i]) == e[i].func
}

/// Whether a cached component is about these functions. One that is not, though it was found
/// at the key, counts as missing.
pub fn entry_matches(p: &Program, members: &Vec<FuncId>, entry: &SccEntry) -> (r: bool)
    ensures
        r == entry_fits(p, members@, entry@),
{
    if members.len() != entry.members.len() {
        return false;
    }
    let mut i: usize = 0;
    while i < members.len()
        invariant
            i <= members@.len(),
            members@.len() == entry.members@.len(),
            forall|j: int| 0 <= j < i ==> p.name_of(#[trigger] members@[j]) == entry@[j].func,
        decreases members@.len() - i,
    {
        assert(entry@[i as int] == entry.members@[i as int]@);
        if !same_text(p.func_name(members[i]), entry.members[i].func.as_str()) {
            return false;
        }
        i += 1;
    }
    true
}

/// The state after the first `n` members of a cached component have been taken over.
pub open spec fn replayed(s: RunV, members: Seq<FuncId>, e: Seq<MemberEntryV>, n: nat) -> RunV
    decreases n,
{
    if n == 0 {
        s
    } else {
        let b = replayed(s, members, e, (n - 1) as nat);
        let f = members[n - 1];
        let x = e[n - 1];
        RunV {
            table: with_summary(b.table, f, x.summary),
            diags: b.diags.update(f.0 as int, x.analysis_diag),
            replays: b.replays.update(
                f.0 as int,
                Some(ReplayV { findings: x.findings, diags: x.findings_diags }),
            ),
            ..b
        }
    }
}

/// What an analysis is given, besides the program.
pub struct InputV<C> {
    pub graph: CallGraph,
    pub sccs: Sccs,
    pub checkers: Seq<C>,
    pub anns: Annotations,
    pub widen_after: nat,
    /// Whether results are cached.
    pub caching: bool,
    /// What was found in the cache, by component.
    pub found: Seq<Option<Seq<MemberEntryV>>>,
    /// The answers to what is inferred.
    pub infer: AnswersV,
    /// The answers to what is reported.
    pub report: AnswersV,
}

/// What was found in the cache for component `si`.
pub open spec fn found_at(found: Seq<Option<Seq<MemberEntryV>>>, si: int) -> Option<
    Seq<MemberEntryV>,
> {
    if 0 <= si < found.len() { found[si] } else { None }
}

/// Whether component `si` comes from the cache.
pub open spec fn is_hit<C>(p: &Program, inp: InputV<C>, si: int) -> bool {
    inp.caching && found_at(inp.found, si) is Some && entry_fits(
        p,
        inp.sccs.schedule@[si]@,
        found_at(inp.found, si).unwrap(),
    )
}

/// The state after component `si`.
pub open spec fn after_component<C: Checker>(p: &Program, inp: InputV<C>, s: RunV, si: int) -> RunV {
    let members = inp.sccs.schedule@[si]@;
    if is_hit(p, inp, si) {
        let e = found_at(inp.found, si).unwrap();
        RunV { hits: s.hits + 1, ..replayed(s, members, e, members.len()) }
    } else {
        let r = component(
            p,
            &inp.graph,
            members,
            inp.checkers,
            inp.infer,
            &inp.anns,
            inp.widen_after,
            ComponentV { table: s.table, asked: s.asked, diags: s.diags, changed: false },
        );
        RunV {
            table: r.table,
            asked: r.asked,
            diags: r.diags,
            fresh: if inp.caching {
                s.fresh.update(si, true)
            } else {
                s.fresh
            },
            misses: if inp.caching {
                s.misses + 1
            } else {
                s.misses
            },
            ..s
        }
    }
}

/// The state after the first `n` components of a wave.
pub open spec fn after_wave<C: Checker>(
    p: &Program,
    inp: InputV<C>,
    wave: Seq<usize>,
    s: RunV,
    n: nat,
) -> RunV
    decreases n,
{
    if n == 0 {
        s
    } else {
        after_component(p, inp, after_wave(p, inp, wave, s, (n - 1) as nat), wave[n - 1] as int)
    }
}

/// The state after the first `n` waves.
pub open spec fn after_waves<C: Checker>(
    p: &Program,
    inp: InputV<C>,
    waves: Seq<Seq<usize>>,
    s: RunV,
    n: nat,
) -> RunV
    decreases n,
{
    if n == 0 {
        s
    } else {
        let w = waves[n - 1];
        after_wave(p, inp, w, after_waves(p, inp, waves, s, (n - 1) as nat), w.len())
    }
}

/// The summaries that stand for functions not analysed yet, and for those that never are:
/// they may do anything, and state what their annotations state.
pub open spec fn unknown_table(anns: &Annotations, n: nat) -> TableV {
    let len = if anns.funcs@.len() > n { anns.funcs@.len() } else { n };
    TableV { entries: Seq::new(len, |i: int| Some(summary_havoc_with(anns.of(FuncId(i as u32))))) }
}

/// The state to start from.
pub open spec fn start_of<C>(p: &Program, inp: InputV<C>) -> RunV {
    RunV {
        table: unknown_table(&inp.anns, p.funcs@.len()),
        asked: Seq::empty(),
        diags: Seq::new(p.funcs@.len(), |i: int| None),
        replays: Seq::new(p.funcs@.len(), |i: int| None),
        fresh: Seq::new(inp.sccs.schedule@.len(), |i: int| false),
        hits: 0,
        misses: 0,
    }
}

/// The state after all components.
pub open spec fn fixpoint_of<C: Checker>(p: &Program, inp: InputV<C>) -> RunV {
    let waves = waves_of(&inp.sccs);
    after_waves(p, inp, waves, start_of(p, inp), waves.len())
}

/// The inputs of an analysis are consistent with each other and with machine limits.
pub open spec fn input_fits<C>(p: &Program, inp: InputV<C>) -> bool {
    &&& inp.sccs.wf(p.funcs@.len())
    &&& p.funcs@.len() <= u32::MAX
    &&& inp.anns.funcs@.len() <= u32::MAX
}

impl Run {
    spec fn wf(&self, p: &Program, sccs: &Sccs) -> bool {
        &&& self.table.wf()
        &&& self.table.entries@.len() >= p.funcs@.len()
        &&& self.diags@.len() == p.funcs@.len()
        &&& self.replays@.len() == p.funcs@.len()
        &&& self.fresh@.len() == sccs.schedule@.len()
    }
}

fn copy_texts(v: &Vec<String>) -> (r: Vec<String>)
    ensures
        views(r@) == views(v@),
{
    let mut out: Vec<String> = Vec::new();
    let mut i: usize = 0;
    while i < v.len()
        invariant
            i <= v@.len(),
            out@.len() == i,
            forall|j: int| 0 <= j < i ==> (#[trigger] out@[j])@ == v@[j]@,
        decreases v@.len() - i,
    {
        out.push(v[i].clone());
        i += 1;
    }
    assert(views(out@) =~= views(v@));
    out
}

fn copy_findings(v: &Vec<Finding>) -> (r: Vec<Finding>)
    ensures
        findings_v(r@) == findings_v(v@),
{
    let mut out: Vec<Finding> = Vec::new();
    let mut i: usize = 0;
    while i < v.len()
        invariant
            i <= v@.len(),
            out@.len() == i,
            forall|j: int| 0 <= j < i ==> (#[trigger] out@[j])@ == v@[j]@,
        decreases v@.len() - i,
    {
        out.push(v[i].clone());
        i += 1;
    }
    assert(findings_v(out@) =~= findings_v(v@));
    out
}

fn copy_text(v: &Option<String>) -> (r: Option<String>)
    ensures
        opt_view(r) == opt_view(*v),
{
    match v {
        Some(s) => Some(s.clone()),
        None => None,
    }
}

/// Takes over a cached component.
fn replay(run: &mut Run, members: &Vec<FuncId>, entry: &SccEntry, p: &Program, sccs: &Sccs)
    requires
        old(run).wf(p, sccs),
        entry.wf(),
        members@.len() == entry.members@.len(),
        members_fit(members@, p.funcs@.len()),
    ensures
        final(run).wf(p, sccs),
        final(run)@ == replayed(old(run)@, members@, entry@, members@.len()),
{
    let ghost s0 = run@;
    let mut i: usize = 0;
    while i < members.len()
        invariant
            i <= members@.len(),
            run.wf(p, sccs),
            entry.wf(),
            members@.len() == entry.members@.len(),
            members_fit(members@, p.funcs@.len()),
            run@ == replayed(s0, members@, entry@, i as nat),
        decreases members@.len() - i,
    {
        let f = members[i];
        let at = f.0 as usize;
        let x = &entry.members[i];
        let ghost before = run@;
        assert(entry@[i as int] == x@);
        assert(x.valid());
        set_summary(&mut run.table, f, x.summary.dup());
        let d = copy_text(&x.analysis_diag);
        let ghost dv = opt_view(d);
        run.diags.set(at, d);
        let r = Replay { findings: copy_findings(&x.findings), diags: copy_texts(&x.findings_diags) };
        let ghost rv = r@;
        run.replays.set(at, Some(r));
        proof {
            assert(opt_views(run.diags@) =~= before.diags.update(at as int, dv));
            assert(opt_views(run.replays@) =~= before.replays.update(at as int, Some(rv)));
            assert(rv == (ReplayV { findings: x@.findings, diags: x@.findings_diags }));
        }
        i += 1;
    }
}

/// The model of what was found in the cache.
pub open spec fn found_v(found: Seq<Option<SccEntry>>) -> Seq<Option<Seq<MemberEntryV>>> {
    opt_views(found)
}

/// Whether the effects maps of what was found are sorted.
pub open spec fn found_wf(found: Seq<Option<SccEntry>>) -> bool {
    forall|i: int| 0 <= i < found.len() ==> ((#[trigger] found[i]) matches Some(e) ==> e.wf())
}

/// Whether results are cached: a place is given, there are checkers, and the questions are not
/// being written out, which a hit would skip.
pub open spec fn caches(cfg: &EngineConfig, n_checkers: nat) -> bool {
    cfg.cache_dir is Some && n_checkers > 0 && cfg.emit_smt is None
}

/// Whether results are cached.
pub fn uses_cache(cfg: &EngineConfig, n_checkers: usize) -> (r: bool)
    ensures
        r == caches(cfg, n_checkers as nat),
{
    cfg.cache_dir.is_some() && n_checkers > 0 && cfg.emit_smt.is_none()
}

fn run_component<C: Checker>(
    p: &Program,
    graph: &CallGraph,
    sccs: &Sccs,
    cs: &Vec<&C>,
    cfg: &EngineConfig,
    caching: bool,
    found: &Vec<Option<SccEntry>>,
    infer: &Answers,
    run: &mut Run,
    si: usize,
    Ghost(inp): Ghost<InputV<C>>,
)
    requires
        old(run).wf(p, sccs),
        infer.wf(),
        found_wf(found@),
        si < sccs.schedule@.len(),
        old(run).hits + old(run).misses < u64::MAX,
        input_fits(p, inp),
        inp.graph == *graph,
        inp.sccs == *sccs,
        inp.checkers == referents(cs@),
        inp.anns == cfg.annotations,
        inp.widen_after == cfg.opts.widen_after,
        inp.caching == caching,
        inp.found == found_v(found@),
        inp.infer == infer@,
    ensures
        final(run).wf(p, sccs),
        final(run)@ == after_component(p, inp, old(run)@, si as int),
        final(run).hits + final(run).misses <= old(run).hits + old(run).misses + 1,
{
    let members = &sccs.schedule[si];
    assert(members_fit(members@, p.funcs@.len())) by {
        assert forall|i: int| 0 <= i < members@.len() implies (#[trigger] members@[i]).0
            < p.funcs@.len() by {
            assert(sccs.schedule@[si as int]@[i].0 < p.funcs@.len());
        }
    }
    if caching && si < found.len() {
        match &found[si] {
            Some(e) => {
                assert(found@[si as int] == Some(*e));
                assert(e.wf());
                assert(found_at(inp.found, si as int) == Some(e@));
                if entry_matches(p, members, e) {
                    assert(e@.len() == e.members@.len());
                    replay(run, members, e, p, sccs);
                    proof {
                        lemma_replayed_counts(old(run)@, members@, e@, members@.len());
                    }
                    run.hits = run.hits + 1;
                    return;
                }
            },
            None => {},
        }
    }
    assert(!is_hit(p, inp, si as int));
    let ghost before = run@;
    analyze_component(
        p,
        graph,
        members,
        cs,
        infer,
        &cfg.annotations,
        cfg.opts.widen_after,
        &mut run.table,
        &mut run.asked,
        &mut run.diags,
    );
    if caching {
        run.fresh.set(si, true);
        run.misses = run.misses + 1;
    }
}

proof fn lemma_replayed_counts(s: RunV, members: Seq<FuncId>, e: Seq<MemberEntryV>, n: nat)
    ensures
        replayed(s, members, e, n).hits == s.hits,
        replayed(s, members, e, n).misses == s.misses,
    decreases n,
{
    if n > 0 {
        lemma_replayed_counts(s, members, e, (n - 1) as nat);
    }
}

/// The number of components in the first `d` waves.
spec fn total(depths: Seq<nat>, d: nat, n: nat) -> nat
    decreases d,
{
    if d == 0 {
        0
    } else {
        total(depths, (d - 1) as nat, n) + wave_upto(depths, (d - 1) as nat, n).len()
    }
}

proof fn lemma_total_step(depths: Seq<nat>, d: nat, n: nat)
    requires
        n > 0,
    ensures
        total(depths, d, n) == total(depths, d, (n - 1) as nat) + (if depths[n - 1] < d {
            1nat
        } else {
            0nat
        }),
    decreases d,
{
    if d > 0 {
        lemma_total_step(depths, (d - 1) as nat, n);
    }
}

proof fn lemma_total(depths: Seq<nat>, d: nat, n: nat)
    ensures
        total(depths, d, n) <= n,
    decreases n,
{
    if n > 0 {
        lemma_total(depths, d, (n - 1) as nat);
        lemma_total_step(depths, d, n);
    } else {
        lemma_total_empty(depths, d);
    }
}

proof fn lemma_total_empty(depths: Seq<nat>, d: nat)
    ensures
        total(depths, d, 0) == 0,
    decreases d,
{
    if d > 0 {
        lemma_total_empty(depths, (d - 1) as nat);
    }
}

fn start_run(p: &Program, sccs: &Sccs, anns: &Annotations) -> (r: Run)
    requires
        p.funcs@.len() <= u32::MAX,
        anns.funcs@.len() <= u32::MAX,
    ensures
        r.wf(p, sccs),
        r.table@ == unknown_table(anns, p.funcs@.len()),
        r.asked@.len() == 0,
        r@.diags == Seq::new(p.funcs@.len(), |i: int| None::<Seq<char>>),
        r@.replays == Seq::new(p.funcs@.len(), |i: int| None::<ReplayV>),
        r@.fresh == Seq::new(sccs.schedule@.len(), |i: int| false),
        r.hits == 0,
        r.misses == 0,
{
    let n = p.funcs.len();
    let len = if anns.funcs.len() > n {
        anns.funcs.len()
    } else {
        n
    };
    let ghost want = unknown_table(anns, n as nat).entries;
    let mut entries: Vec<Option<Summary>> = Vec::new();
    let mut i: usize = 0;
    while i < len
        invariant
            i <= len,
            len <= u32::MAX,
            want.len() == len,
            want == unknown_table(anns, n as nat).entries,
            entries@.len() == i,
            forall|j: int| 0 <= j < i ==> slot_v(#[trigger] entries@[j]) == want[j],
            forall|j: int|
                0 <= j < i && (#[trigger] entries@[j]) is Some ==> entries@[j].unwrap().effects.wf(),
        decreases len - i,
    {
        let f = FuncId(i as u32);
        entries.push(Some(havoc_with(anns.get(f))));
        i += 1;
    }
    let table = SummaryTable { entries };
    assert(table@.entries =~= want);
    let mut diags: Vec<Option<String>> = Vec::new();
    let mut replays: Vec<Option<Replay>> = Vec::new();
    let mut k: usize = 0;
    while k < n
        invariant
            k <= n,
            diags@.len() == k,
            replays@.len() == k,
            forall|j: int| 0 <= j < k ==> (#[trigger] diags@[j]) is None,
            forall|j: int| 0 <= j < k ==> (#[trigger] replays@[j]) is None,
        decreases n - k,
    {
        diags.push(None);
        replays.push(None);
        k += 1;
    }
    let mut fresh: Vec<bool> = Vec::new();
    let mut j: usize = 0;
    while j < sccs.schedule.len()
        invariant
            j <= sccs.schedule@.len(),
            fresh@.len() == j,
            forall|i: int| 0 <= i < j ==> !(#[trigger] fresh@[i]),
        decreases sccs.schedule@.len() - j,
    {
        fresh.push(false);
        j += 1;
    }
    let r = Run { table, asked: Vec::new(), diags, replays, fresh, hits: 0, misses: 0 };
    proof {
        assert(r@.diags =~= Seq::new(p.funcs@.len(), |i: int| None::<Seq<char>>));
        assert(r@.replays =~= Seq::new(p.funcs@.len(), |i: int| None::<ReplayV>));
        assert(r@.fresh =~= Seq::new(sccs.schedule@.len(), |i: int| false));
    }
    r
}

/// All components, wave by wave.
fn run_waves<C: Checker>(
    p: &Program,
    graph: &CallGraph,
    sccs: &Sccs,
    cs: &Vec<&C>,
    cfg: &EngineConfig,
    caching: bool,
    found: &Vec<Option<SccEntry>>,
    infer: &Answers,
    Ghost(inp): Ghost<InputV<C>>,
) -> (r: Run)
    requires
        infer.wf(),
        found_wf(found@),
        input_fits(p, inp),
        inp.graph == *graph,
        inp.sccs == *sccs,
        inp.checkers == referents(cs@),
        inp.anns == cfg.annotations,
        inp.widen_after == cfg.opts.widen_after,
        inp.caching == caching,
        inp.found == found_v(found@),
        inp.infer == infer@,
    ensures
        r.wf(p, sccs),
        r@ == fixpoint_of(p, inp),
{
    let ws = waves(sccs, p.funcs.len());
    let ghost wv = waves_of(sccs);
    let ghost depths = depths_of(sccs);
    let n = sccs.schedule.len();
    let mut run = start_run(p, sccs, &cfg.annotations);
    let ghost s0 = start_of(p, inp);
    proof {
        assert(run@.asked =~= s0.asked);
        assert(run@ == s0);
        lemma_depths(sccs, sccs.schedule@.len(), p.funcs@.len());
    }
    let mut d: usize = 0;
    while d < ws.len()
        invariant
            d <= ws@.len(),
            infer.wf(),
            found_wf(found@),
            input_fits(p, inp),
            inp.graph == *graph,
            inp.sccs == *sccs,
            inp.checkers == referents(cs@),
            inp.anns == cfg.annotations,
            inp.widen_after == cfg.opts.widen_after,
            inp.caching == caching,
            inp.found == found_v(found@),
            inp.infer == infer@,
            waves_v(ws@) == wv,
            wv == waves_of(sccs),
            depths == depths_of(sccs),
            n == sccs.schedule@.len(),
            depths.len() == n,
            run.wf(p, sccs),
            run@ == after_waves(p, inp, wv, s0, d as nat),
            run.hits + run.misses <= total(depths, d as nat, n as nat),
        decreases ws@.len() - d,
    {
        let ghost w = wv[d as int];
        let ghost s1 = run@;
        proof {
            assert(waves_v(ws@).len() == ws@.len());
            assert(w == ws@[d as int]@);
            assert(w == wave_upto(depths, d as nat, n as nat));
            lemma_wave(depths, d as nat, n as nat);
            lemma_total(depths, d as nat + 1, n as nat);
        }
        let mut k: usize = 0;
        while k < ws[d].len()
            invariant
                d < ws@.len(),
                w == ws@[d as int]@,
                k <= w.len(),
                infer.wf(),
                found_wf(found@),
                input_fits(p, inp),
                inp.graph == *graph,
                inp.sccs == *sccs,
                inp.checkers == referents(cs@),
                inp.anns == cfg.annotations,
                inp.widen_after == cfg.opts.widen_after,
                inp.caching == caching,
                inp.found == found_v(found@),
                inp.infer == infer@,
                n == sccs.schedule@.len(),
                w == wave_upto(depths, d as nat, n as nat),
                forall|i: int| 0 <= i < w.len() ==> (#[trigger] w[i]) < n,
                total(depths, d as nat, n as nat) + w.len() <= n,
                run.wf(p, sccs),
                run@ == after_wave(p, inp, w, s1, k as nat),
                run.hits + run.misses <= total(depths, d as nat, n as nat) + k,
            decreases w.len() - k,
        {
            let si = ws[d][k];
            assert(w[k as int] == si);
            run_component(
                p,
                graph,
                sccs,
                cs,
                cfg,
                caching,
                found,
                infer,
                &mut run,
                si,
                Ghost(inp),
            );
            k += 1;
        }
        d += 1;
    }
    assert(wv.len() == ws@.len());
    run
}

// ---- Findings ----

/// What is reported so far.
pub struct ReportV {
    pub findings: Seq<FindingV>,
    pub diags: Seq<Seq<char>>,
    pub asked: Seq<Seq<char>>,
    /// For each function what was found out anew; nothing where the cache told.
    pub outs: Seq<ReplayV>,
}

/// Nothing to report.
pub open spec fn no_replay() -> ReplayV {
    ReplayV { findings: Seq::empty(), diags: Seq::empty() }
}

/// What is reported of the first `n` functions.
pub open spec fn report_upto<C: Checker>(
    p: &Program,
    inp: InputV<C>,
    t: TableV,
    replays: Seq<Option<ReplayV>>,
    n: nat,
) -> ReportV
    decreases n,
{
    if n == 0 {
        ReportV {
            findings: Seq::empty(),
            diags: Seq::empty(),
            asked: Seq::empty(),
            outs: Seq::empty(),
        }
    } else {
        let b = report_upto(p, inp, t, replays, (n - 1) as nat);
        let f = FuncId((n - 1) as u32);
        match replays[n - 1] {
            Some(r) => ReportV {
                findings: b.findings + r.findings,
                diags: b.diags + r.diags,
                outs: b.outs.push(no_replay()),
                ..b
            },
            None => {
                let fs = function_findings(p, f, t, inp.checkers, inp.report, &inp.anns);
                let ds = findings_diags(p, f, t, inp.checkers);
                ReportV {
                    findings: b.findings + fs,
                    diags: b.diags + ds,
                    asked: b.asked + findings_asked(p, f, t, inp.checkers, inp.report, &inp.anns),
                    outs: b.outs.push(ReplayV { findings: fs, diags: ds }),
                }
            },
        }
    }
}

/// The summaries of the functions of a program of `n` functions.
pub open spec fn final_table(t: TableV, n: nat) -> TableV {
    TableV { entries: t.entries.take(n as int) }
}

/// What is reported: nothing without checkers.
pub open spec fn report_of<C: Checker>(p: &Program, inp: InputV<C>, s: RunV) -> ReportV {
    if inp.checkers.len() > 0 {
        report_upto(
            p,
            inp,
            final_table(s.table, p.funcs@.len()),
            s.replays,
            p.funcs@.len(),
        )
    } else {
        ReportV {
            findings: Seq::empty(),
            diags: Seq::empty(),
            asked: Seq::empty(),
            outs: Seq::new(p.funcs@.len(), |i: int| no_replay()),
        }
    }
}

struct Report {
    findings: Vec<Finding>,
    diags: Vec<String>,
    asked: Vec<String>,
    outs: Vec<Replay>,
}

impl View for Report {
    type V = ReportV;

    closed spec fn view(&self) -> ReportV {
        ReportV {
            findings: findings_v(self.findings@),
            diags: views(self.diags@),
            asked: views(self.asked@),
            outs: views(self.outs@),
        }
    }
}

proof fn lemma_views_append<T: View>(a: Seq<T>, b: Seq<T>)
    ensures
        views(a + b) == views(a) + views(b),
{
    assert(views(a + b) =~= views(a) + views(b));
}

fn empty_report() -> (r: Report)
    ensures
        r@.findings == Seq::<FindingV>::empty(),
        r@.diags == Seq::<Seq<char>>::empty(),
        r@.asked == Seq::<Seq<char>>::empty(),
        r@.outs == Seq::<ReplayV>::empty(),
        r.outs@.len() == 0,
{
    let r = Report { findings: Vec::new(), diags: Vec::new(), asked: Vec::new(), outs: Vec::new() };
    proof {
        assert(r@.findings =~= Seq::<FindingV>::empty());
        assert(r@.diags =~= Seq::<Seq<char>>::empty());
        assert(r@.asked =~= Seq::<Seq<char>>::empty());
        assert(r@.outs =~= Seq::<ReplayV>::empty());
    }
    r
}

fn nothing() -> (r: Replay)
    ensures
        r@ == no_replay(),
{
    let r = Replay { findings: Vec::new(), diags: Vec::new() };
    assert(findings_v(r.findings@) =~= Seq::<FindingV>::empty());
    assert(views(r.diags@) =~= Seq::<Seq<char>>::empty());
    r
}

/// Reports one function.
fn report_function<C: Checker>(
    p: &Program,
    cs: &Vec<&C>,
    anns: &Annotations,
    t: &SummaryTable,
    replays: &Vec<Option<Replay>>,
    answers: &Answers,
    rep: &mut Report,
    i: usize,
    Ghost(inp): Ghost<InputV<C>>,
)
    requires
        t.wf(),
        answers.wf(),
        i < replays@.len(),
        i <= u32::MAX,
        inp.checkers == referents(cs@),
        inp.anns == *anns,
        inp.report == answers@,
        old(rep)@ == report_upto(p, inp, t@, opt_views(replays@), i as nat),
    ensures
        final(rep)@ == report_upto(p, inp, t@, opt_views(replays@), i as nat + 1),
        final(rep).outs@.len() == old(rep).outs@.len() + 1,
{
    let ghost b = rep@;
    let f = FuncId(i as u32);
    let ghost fv = rep.findings@;
    let ghost dv = rep.diags@;
    let ghost ov = rep.outs@;
    match &replays[i] {
        Some(r) => {
            assert(opt_views(replays@)[i as int] == Some(r@));
            let mut fs = copy_findings(&r.findings);
            let mut ds = copy_texts(&r.diags);
            let ghost fsv = fs@;
            let ghost dsv = ds@;
            rep.findings.append(&mut fs);
            rep.diags.append(&mut ds);
            rep.outs.push(nothing());
            proof {
                assert(findings_v(rep.findings@) =~= findings_v(fv) + findings_v(fsv));
                lemma_views_append(dv, dsv);
                assert(views(rep.outs@) =~= views(ov).push(no_replay()));
            }
        },
        None => {
            assert(opt_views(replays@)[i as int] is None);
            let mut ds: Vec<String> = Vec::new();
            assert(views(ds@) =~= Seq::<Seq<char>>::empty());
            let fs = check_function(p, f, t, cs, answers, anns, &mut rep.asked, &mut ds);
            proof {
                let said = findings_diags(p, f, t@, inp.checkers);
                assert(Seq::<Seq<char>>::empty() + said =~= said);
            }
            let mut fs2 = copy_findings(&fs);
            let mut ds2 = copy_texts(&ds);
            let out = Replay { findings: fs, diags: ds };
            let ghost outv = out@;
            let ghost fsv = fs2@;
            let ghost dsv = ds2@;
            rep.findings.append(&mut fs2);
            rep.diags.append(&mut ds2);
            rep.outs.push(out);
            proof {
                assert(findings_v(rep.findings@) =~= findings_v(fv) + findings_v(fsv));
                lemma_views_append(dv, dsv);
                assert(views(rep.outs@) =~= views(ov).push(outv));
            }
        },
    }
}

fn report_findings<C: Checker>(
    p: &Program,
    cs: &Vec<&C>,
    anns: &Annotations,
    t: &SummaryTable,
    replays: &Vec<Option<Replay>>,
    answers: &Answers,
    Ghost(inp): Ghost<InputV<C>>,
    Ghost(s): Ghost<RunV>,
) -> (r: Report)
    requires
        t.wf(),
        answers.wf(),
        p.funcs@.len() <= u32::MAX,
        replays@.len() == p.funcs@.len(),
        inp.checkers == referents(cs@),
        inp.anns == *anns,
        inp.report == answers@,
        t@ == final_table(s.table, p.funcs@.len()),
        s.replays == opt_views(replays@),
    ensures
        r@ == report_of(p, inp, s),
        r.outs@.len() == p.funcs@.len(),
{
    let mut rep = empty_report();
    let n = p.funcs.len();
    let mut i: usize = 0;
    if cs.len() == 0 {
        while i < n
            invariant
                i <= n,
                n == p.funcs@.len(),
                rep@.findings == Seq::<FindingV>::empty(),
                rep@.diags == Seq::<Seq<char>>::empty(),
                rep@.asked == Seq::<Seq<char>>::empty(),
                rep@.outs == Seq::new(i as nat, |j: int| no_replay()),
                rep.outs@.len() == i,
            decreases n - i,
        {
            let ghost ov = rep.outs@;
            rep.outs.push(nothing());
            i += 1;
            assert(views(rep.outs@) =~= views(ov).push(no_replay()));
            assert(rep@.outs =~= Seq::new(i as nat, |j: int| no_replay()));
        }
        return rep;
    }
    while i < n
        invariant
            i <= n,
            n == p.funcs@.len(),
            n <= u32::MAX,
            t.wf(),
            replays@.len() == n,
            answers.wf(),
            inp.checkers == referents(cs@),
            inp.anns == *anns,
            inp.report == answers@,
            rep.outs@.len() == i,
            rep@ == report_upto(p, inp, t@, opt_views(replays@), i as nat),
        decreases n - i,
    {
        report_function(p, cs, anns, t, replays, answers, &mut rep, i, Ghost(inp));
        i += 1;
    }
    rep
}

// ---- The whole analysis ----

/// The results of an analysis.
#[derive(Debug, PartialEq, Eq)]
pub struct Analysis {
    /// The summaries, by function.
    pub summaries: Vec<Summary>,
    /// What is clean, by function.
    pub prepass: Vec<Domains>,
    pub diagnostics: Vec<String>,
    pub findings: Vec<Finding>,
    /// How many components came from the cache; 0 where nothing is cached.
    pub scc_cache_hits: u64,
    /// How many were analysed though results are cached.
    pub scc_cache_misses: u64,
    /// The components that are to be cached, with their places in the schedule.
    pub fresh: Vec<(usize, SccEntry)>,
    /// The questions that were asked to infer clauses.
    pub asked_infer: Vec<String>,
    /// The questions that were asked to confirm findings.
    pub asked_findings: Vec<String>,
}

/// The model of an [`Analysis`].
pub struct AnalysisV {
    pub summaries: Seq<SummaryV>,
    pub prepass: Seq<Domains>,
    pub diagnostics: Seq<Seq<char>>,
    pub findings: Seq<FindingV>,
    pub scc_cache_hits: nat,
    pub scc_cache_misses: nat,
    pub fresh: Seq<(usize, Seq<MemberEntryV>)>,
    pub asked_infer: Seq<Seq<char>>,
    pub asked_findings: Seq<Seq<char>>,
}

impl View for Analysis {
    type V = AnalysisV;

    open spec fn view(&self) -> AnalysisV {
        AnalysisV {
            summaries: views(self.summaries@),
            prepass: self.prepass@,
            diagnostics: views(self.diagnostics@),
            findings: findings_v(self.findings@),
            scc_cache_hits: self.scc_cache_hits as nat,
            scc_cache_misses: self.scc_cache_misses as nat,
            fresh: views(self.fresh@),
            asked_infer: views(self.asked_infer@),
            asked_findings: views(self.asked_findings@),
        }
    }
}

/// What is there of the first `n`.
pub open spec fn present_upto(v: Seq<Option<Seq<char>>>, n: nat) -> Seq<Seq<char>>
    decreases n,
{
    if n == 0 {
        Seq::empty()
    } else {
        let before = present_upto(v, (n - 1) as nat);
        match v[n - 1] {
            Some(x) => before.push(x),
            None => before,
        }
    }
}

/// What is to be cached of function `f`.
pub open spec fn member_entry(
    p: &Program,
    t: TableV,
    diags: Seq<Option<Seq<char>>>,
    outs: Seq<ReplayV>,
    f: FuncId,
) -> MemberEntryV {
    MemberEntryV {
        func: p.name_of(f),
        summary: t.summary(f),
        analysis_diag: diags[f.0 as int],
        findings: outs[f.0 as int].findings,
        findings_diags: outs[f.0 as int].diags,
    }
}

/// What is to be cached of a component.
pub open spec fn component_entry(
    p: &Program,
    t: TableV,
    diags: Seq<Option<Seq<char>>>,
    outs: Seq<ReplayV>,
    members: Seq<FuncId>,
) -> Seq<MemberEntryV> {
    Seq::new(members.len(), |j: int| member_entry(p, t, diags, outs, members[j]))
}

/// What is to be cached of the first `n` components.
pub open spec fn fresh_upto(
    p: &Program,
    sccs: &Sccs,
    t: TableV,
    diags: Seq<Option<Seq<char>>>,
    outs: Seq<ReplayV>,
    fresh: Seq<bool>,
    n: nat,
) -> Seq<(usize, Seq<MemberEntryV>)>
    decreases n,
{
    if n == 0 {
        Seq::empty()
    } else {
        let before = fresh_upto(p, sccs, t, diags, outs, fresh, (n - 1) as nat);
        if fresh[n - 1] {
            before.push(
                (
                    (n - 1) as usize,
                    component_entry(p, t, diags, outs, sccs.schedule@[n - 1]@),
                ),
            )
        } else {
            before
        }
    }
}

/// What is clean in `f`.
pub open spec fn domains_of(p: &Program, t: TableV, f: FuncId) -> Domains {
    Domains {
        value_clean: clean(p, f),
        concurrency_clean: t.summary(f).effects == effects_empty(),
    }
}

/// The results: summaries bottom-up, then findings in the order of functions, with what went
/// wrong before and while they were looked for.
pub open spec fn analysis<C: Checker>(p: &Program, inp: InputV<C>) -> AnalysisV {
    let n = p.funcs@.len();
    let s = fixpoint_of(p, inp);
    let t = final_table(s.table, n);
    let r = report_of(p, inp, s);
    AnalysisV {
        summaries: Seq::new(n, |i: int| t.summary(FuncId(i as u32))),
        prepass: Seq::new(n, |i: int| domains_of(p, t, FuncId(i as u32))),
        diagnostics: present_upto(s.diags, n) + r.diags,
        findings: r.findings,
        scc_cache_hits: s.hits,
        scc_cache_misses: s.misses,
        fresh: fresh_upto(
            p,
            &inp.sccs,
            t,
            s.diags,
            r.outs,
            s.fresh,
            inp.sccs.schedule@.len(),
        ),
        asked_infer: s.asked,
        asked_findings: r.asked,
    }
}

/// A checker's name with its place.
struct Named {
    name: String,
    at: usize,
}

impl View for Named {
    type V = (Seq<char>, usize);

    closed spec fn view(&self) -> (Seq<char>, usize) {
        (self.name@, self.at)
    }
}

impl Rank for Named {
    open spec fn rank_of(v: (Seq<char>, usize)) -> Seq<int> {
        codes(v.0)
    }

    fn ranks_before(&self, other: &Named) -> (r: bool) {
        text_before(self.name.as_str(), other.name.as_str())
    }
}

/// The names of checkers with their places.
pub open spec fn names_of<C: Checker>(cs: Seq<C>) -> Seq<(Seq<char>, usize)> {
    Seq::new(cs.len(), |i: int| (cs[i].name_of(), i as usize))
}

/// The order in which checkers run: by name; checkers that share a name keep their order.
pub closed spec fn run_order(names: Seq<(Seq<char>, usize)>) -> Seq<(Seq<char>, usize)> {
    sorted::<Named>(names)
}

/// The checkers in the order in which they run.
pub open spec fn in_run_order<C: Checker>(cs: Seq<C>) -> Seq<C> {
    let o = run_order(names_of(cs));
    Seq::new(o.len(), |i: int| cs[o[i].1 as int])
}

/// Checkers run in the order of their names. All of them run, and nothing else does.
pub proof fn checkers_run_by_name<C: Checker>(cs: Seq<C>)
    requires
        cs.len() <= usize::MAX,
    ensures
        in_run_order(cs).len() == cs.len(),
        forall|i: int| 0 <= i < cs.len() ==> in_run_order(cs).contains(#[trigger] cs[i]),
        forall|i: int| 0 <= i < cs.len() ==> cs.contains(#[trigger] in_run_order(cs)[i]),
        forall|i: int, j: int|
            0 <= i <= j < cs.len() ==> !lex_lt(
                codes((#[trigger] in_run_order(cs)[j]).name_of()),
                codes((#[trigger] in_run_order(cs)[i]).name_of()),
            ),
{
    let names = names_of(cs);
    let o = run_order(names);
    let r = in_run_order(cs);
    lemma_order_range(cs);
    sorting_sorts::<Named>(names);
    names.to_multiset_ensures();
    o.to_multiset_ensures();
    assert forall|i: int| 0 <= i < cs.len() implies r.contains(#[trigger] cs[i]) by {
        assert(names.contains(names[i]));
        assert(names.to_multiset().count(names[i]) > 0);
        assert(o.contains(names[i]));
        let j = choose|j: int| 0 <= j < o.len() && o[j] == names[i];
        assert(r[j] == cs[i]);
    }
    assert forall|i: int| 0 <= i < cs.len() implies cs.contains(#[trigger] r[i]) by {
        assert(r[i] == cs[o[i].1 as int]);
    }
    assert forall|i: int, j: int| 0 <= i <= j < cs.len() implies !lex_lt(
        codes((#[trigger] r[j]).name_of()),
        codes((#[trigger] r[i]).name_of()),
    ) by {
        assert(o[i].0 == r[i].name_of());
        assert(o[j].0 == r[j].name_of());
    }
}

fn order_checkers<'a, C: Checker>(cs: &'a Vec<C>) -> (r: Vec<&'a C>)
    ensures
        referents(r@) == in_run_order(cs@),
{
    let mut names: Vec<Named> = Vec::new();
    let mut i: usize = 0;
    while i < cs.len()
        invariant
            i <= cs@.len(),
            names@.len() == i,
            forall|j: int| 0 <= j < i ==> (#[trigger] names@[j])@ == names_of(cs@)[j],
        decreases cs@.len() - i,
    {
        names.push(Named { name: cs[i].name().to_string(), at: i });
        i += 1;
    }
    assert(views(names@) =~= names_of(cs@));
    let order = sort_items(names);
    let ghost o = run_order(names_of(cs@));
    proof {
        lemma_order_range(cs@);
        assert(views(order@) == o);
        assert(o.len() == order@.len());
    }
    let mut out: Vec<&'a C> = Vec::new();
    let mut k: usize = 0;
    while k < order.len()
        invariant
            k <= order@.len(),
            o == views(order@),
            forall|j: int| 0 <= j < o.len() ==> (#[trigger] o[j]).1 < cs@.len(),
            out@.len() == k,
            forall|j: int| 0 <= j < k ==> *(#[trigger] out@[j]) == cs@[o[j].1 as int],
        decreases order@.len() - k,
    {
        assert(o[k as int] == order@[k as int]@);
        out.push(&cs[order[k].at]);
        k += 1;
    }
    assert(referents(out@) =~= in_run_order(cs@));
    out
}

proof fn lemma_order_range<C: Checker>(cs: Seq<C>)
    requires
        cs.len() <= usize::MAX,
    ensures
        run_order(names_of(cs)).len() == cs.len(),
        forall|j: int|
            0 <= j < cs.len() ==> (#[trigger] run_order(names_of(cs))[j]).1 < cs.len(),
        forall|j: int|
            0 <= j < cs.len() ==> (#[trigger] run_order(names_of(cs))[j]).0 == cs[run_order(
                names_of(cs),
            )[j].1 as int].name_of(),
{
    let names = names_of(cs);
    let o = run_order(names);
    sorting_sorts::<Named>(names);
    names.to_multiset_ensures();
    o.to_multiset_ensures();
    assert forall|j: int| 0 <= j < o.len() implies (#[trigger] o[j]).1 < cs.len() && o[j].0
        == cs[o[j].1 as int].name_of() by {
        assert(o.contains(o[j]));
        assert(o.to_multiset().count(o[j]) > 0);
        assert(names.contains(o[j]));
        let i = choose|i: int| 0 <= i < names.len() && names[i] == o[j];
        assert(names[i].1 == i as usize);
    }
}

fn present(v: &Vec<Option<String>>) -> (r: Vec<String>)
    ensures
        views(r@) == present_upto(opt_views(v@), v@.len()),
{
    let ghost ov = opt_views(v@);
    let mut out: Vec<String> = Vec::new();
    let mut i: usize = 0;
    assert(views(out@) =~= Seq::<Seq<char>>::empty());
    while i < v.len()
        invariant
            i <= v@.len(),
            ov == opt_views(v@),
            views(out@) == present_upto(ov, i as nat),
        decreases v@.len() - i,
    {
        assert(ov[i as int] == opt_view(v@[i as int]));
        match &v[i] {
            Some(x) => {
                let ghost before = out@;
                let ghost xv = x@;
                out.push(x.clone());
                assert(views(out@) =~= views(before).push(xv));
            },
            None => {},
        }
        i += 1;
    }
    out
}

fn summary_at(t: &SummaryTable, f: FuncId) -> (r: Summary)
    requires
        t.wf(),
    ensures
        r@ == t@.summary(f),
        r.effects.wf(),
{
    match t.get(f) {
        Some(s) => s.dup(),
        None => Summary::havoc(),
    }
}

fn entry_of(
    p: &Program,
    t: &SummaryTable,
    diags: &Vec<Option<String>>,
    outs: &Vec<Replay>,
    members: &Vec<FuncId>,
) -> (r: SccEntry)
    requires
        t.wf(),
        diags@.len() == p.funcs@.len(),
        outs@.len() == p.funcs@.len(),
        members_fit(members@, p.funcs@.len()),
    ensures
        r.wf(),
        r@ == component_entry(p, t@, opt_views(diags@), views(outs@), members@),
{
    let ghost want = component_entry(p, t@, opt_views(diags@), views(outs@), members@);
    let mut out: Vec<MemberEntry> = Vec::new();
    let mut j: usize = 0;
    while j < members.len()
        invariant
            j <= members@.len(),
            t.wf(),
            diags@.len() == p.funcs@.len(),
            outs@.len() == p.funcs@.len(),
            members_fit(members@, p.funcs@.len()),
            want == component_entry(p, t@, opt_views(diags@), views(outs@), members@),
            out@.len() == j,
            forall|k: int| 0 <= k < j ==> (#[trigger] out@[k])@ == want[k],
            forall|k: int| 0 <= k < j ==> (#[trigger] out@[k]).valid(),
        decreases members@.len() - j,
    {
        let f = members[j];
        let at = f.0 as usize;
        assert(views(outs@)[at as int] == outs@[at as int]@);
        let e = MemberEntry {
            func: p.func_name(f).to_string(),
            summary: summary_at(t, f),
            analysis_diag: copy_text(&diags[at]),
            findings: copy_findings(&outs[at].findings),
            findings_diags: copy_texts(&outs[at].diags),
        };
        assert(e@ == want[j as int]);
        out.push(e);
        j += 1;
    }
    assert(views(out@) =~= want);
    SccEntry { members: out }
}

fn fresh_entries(
    p: &Program,
    sccs: &Sccs,
    t: &SummaryTable,
    diags: &Vec<Option<String>>,
    outs: &Vec<Replay>,
    fresh: &Vec<bool>,
) -> (r: Vec<(usize, SccEntry)>)
    requires
        t.wf(),
        sccs.wf(p.funcs@.len()),
        diags@.len() == p.funcs@.len(),
        outs@.len() == p.funcs@.len(),
        fresh@.len() == sccs.schedule@.len(),
    ensures
        views(r@) == fresh_upto(
            p,
            sccs,
            t@,
            opt_views(diags@),
            views(outs@),
            fresh@,
            sccs.schedule@.len(),
        ),
        forall|i: int| 0 <= i < r@.len() ==> (#[trigger] r@[i]).1.wf(),
{
    let mut out: Vec<(usize, SccEntry)> = Vec::new();
    let ghost dv = opt_views(diags@);
    let ghost ov = views(outs@);
    let mut i: usize = 0;
    assert(views(out@) =~= Seq::<(usize, Seq<MemberEntryV>)>::empty());
    while i < sccs.schedule.len()
        invariant
            i <= sccs.schedule@.len(),
            t.wf(),
            sccs.wf(p.funcs@.len()),
            diags@.len() == p.funcs@.len(),
            outs@.len() == p.funcs@.len(),
            fresh@.len() == sccs.schedule@.len(),
            dv == opt_views(diags@),
            ov == views(outs@),
            views(out@) == fresh_upto(p, sccs, t@, dv, ov, fresh@, i as nat),
            forall|i: int| 0 <= i < out@.len() ==> (#[trigger] out@[i]).1.wf(),
        decreases sccs.schedule@.len() - i,
    {
        if fresh[i] {
            assert(members_fit(sccs.schedule@[i as int]@, p.funcs@.len())) by {
                assert forall|j: int| 0 <= j < sccs.schedule@[i as int]@.len() implies (
                #[trigger] sccs.schedule@[i as int]@[j]).0 < p.funcs@.len() by {}
            }
            let e = entry_of(p, t, diags, outs, &sccs.schedule[i]);
            let ghost ev = e@;
            let ghost before = out@;
            out.push((i, e));
            assert(views(out@) =~= views(before).push((i, ev)));
        }
        i += 1;
    }
    out
}

/// The inputs of an analysis, as a value.
pub open spec fn input_of<C: Checker>(
    graph: &CallGraph,
    sccs: &Sccs,
    cfg: &EngineConfig,
    checkers: Seq<C>,
    found: Seq<Option<SccEntry>>,
    infer: &Answers,
    report: &Answers,
) -> InputV<C> {
    InputV {
        graph: *graph,
        sccs: *sccs,
        checkers: in_run_order(checkers),
        anns: cfg.annotations,
        widen_after: cfg.opts.widen_after as nat,
        caching: caches(cfg, checkers.len()),
        found: found_v(found),
        infer: infer@,
        report: report@,
    }
}

/// Analyses a program. `found` is what the cache holds for each component; it counts only
/// where results are cached. `infer` and `report` are the answers of the solver so far. The
/// results are final once both hold an answer to everything that was asked.
pub fn analyze_full<C: Checker>(
    p: &Program,
    graph: &CallGraph,
    sccs: &Sccs,
    cfg: &EngineConfig,
    checkers: &Vec<C>,
    found: &Vec<Option<SccEntry>>,
    infer: &Answers,
    report: &Answers,
) -> (r: Analysis)
    requires
        sccs.wf(p.funcs@.len()),
        p.funcs@.len() <= u32::MAX,
        cfg.annotations.funcs@.len() <= u32::MAX,
        found_wf(found@),
        infer.wf(),
        report.wf(),
    ensures
        r@ == analysis(p, input_of(graph, sccs, cfg, checkers@, found@, infer, report)),
        forall|i: int| 0 <= i < r.summaries@.len() ==> (#[trigger] r.summaries@[i]).effects.wf(),
        forall|i: int| 0 <= i < r.fresh@.len() ==> (#[trigger] r.fresh@[i]).1.wf(),
{
    let ghost inp = input_of(graph, sccs, cfg, checkers@, found@, infer, report);
    let cs = order_checkers(checkers);
    let caching = uses_cache(cfg, checkers.len());
    proof {
        checkers_run_by_name(checkers@);
    }
    let mut run = run_waves(p, graph, sccs, &cs, cfg, caching, found, infer, Ghost(inp));
    let ghost s = run@;
    let n = p.funcs.len();
    let mut table = SummaryTable { entries: Vec::new() };
    std::mem::swap(&mut table, &mut run.table);
    table.entries.truncate(n);
    let ghost t = final_table(s.table, n as nat);
    assert(table@.entries =~= t.entries);
    let mut summaries: Vec<Summary> = Vec::new();
    let mut pre: Vec<Domains> = Vec::new();
    let mut i: usize = 0;
    while i < n
        invariant
            i <= n,
            n <= u32::MAX,
            table.wf(),
            table@ == t,
            summaries@.len() == i,
            pre@.len() == i,
            forall|j: int|
                0 <= j < i ==> (#[trigger] summaries@[j])@ == t.summary(FuncId(j as u32)),
            forall|j: int| 0 <= j < i ==> (#[trigger] summaries@[j]).effects.wf(),
            forall|j: int| 0 <= j < i ==> (#[trigger] pre@[j]) == domains_of(p, t, FuncId(j as u32)),
        decreases n - i,
    {
        let f = FuncId(i as u32);
        let s = summary_at(&table, f);
        pre.push(Domains { value_clean: value_clean(p, f), concurrency_clean: s.effects.is_empty() });
        summaries.push(s);
        i += 1;
    }
    let rep = report_findings(p, &cs, &cfg.annotations, &table, &run.replays, report, Ghost(inp), Ghost(s));
    let mut diagnostics = present(&run.diags);
    let fresh = fresh_entries(p, sccs, &table, &run.diags, &rep.outs, &run.fresh);
    let Report { findings, mut diags, asked, outs: _ } = rep;
    let ghost d0 = diagnostics@;
    let ghost d1 = diags@;
    diagnostics.append(&mut diags);
    proof {
        lemma_views_append(d0, d1);
    }
    let r = Analysis {
        summaries,
        prepass: pre,
        diagnostics,
        findings,
        scc_cache_hits: run.hits,
        scc_cache_misses: run.misses,
        fresh,
        asked_infer: run.asked,
        asked_findings: asked,
    };
    proof {
        let want = analysis(p, inp);
        assert(r@.summaries =~= want.summaries);
        assert(r@.prepass =~= want.prepass);
        assert(r@.diagnostics =~= want.diagnostics);
        assert(r@.fresh == want.fresh);
    }
    r
}

/// Analyses a program without checkers: effects and what annotations say, no findings.
pub fn analyze(p: &Program, graph: &CallGraph, sccs: &Sccs, opts: &Options) -> (r: Analysis)
    requires
        sccs.wf(p.funcs@.len()),
        p.funcs@.len() <= u32::MAX,
    ensures
        exists|inp: InputV<AnyChecker>|
            #![trigger analysis(p, inp)]
            {
                &&& r@ == analysis(p, inp)
                &&& inp.graph == *graph
                &&& inp.sccs == *sccs
                &&& inp.checkers.len() == 0
                &&& inp.anns.funcs@.len() == 0
                &&& inp.widen_after == opts.widen_after
                &&& !inp.caching
                &&& inp.found.len() == 0
                &&& inp.infer == Map::<Seq<char>, OutcomeV>::empty()
                &&& inp.report == Map::<Seq<char>, OutcomeV>::empty()
            },
{
    let cfg = EngineConfig { opts: *opts, ..EngineConfig::default() };
    let none: Vec<AnyChecker> = Vec::new();
    let found: Vec<Option<SccEntry>> = Vec::new();
    let infer = Answers::new();
    let report = Answers::new();
    proof {
        checkers_run_by_name(none@);
    }
    analyze_full(p, graph, sccs, &cfg, &none, &found, &infer, &report)
}

} // verus!
