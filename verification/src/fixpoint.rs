//! Summaries bottom-up: one function, one round over a component of the call graph, and rounds
//! until nothing changes or the component is widened.

use vstd::prelude::*;
use crate::annotations::{Annotations, FuncAnnotations};
use crate::answers::{asked_texts, note, texts_of, verdicts_on, Answers};
use crate::checker::{queries_v, Checker};
use crate::codec::views;
use crate::effects::{collect, collected};
use crate::engine::opt_views;
use crate::faults::{analysis_fault, analysis_fault_text};
use crate::ir::{CallGraph, FuncId, Program};
use crate::query_cache::OutcomeV;
use crate::summary::{
    clauses, havoc_with, merge_annotations, summary_default, summary_havoc_with, summary_merged,
    Clause, ClauseV, Provenance, Summary, SummaryTable, SummaryV, TableV,
};

verus! {

/// The answers of a solver, by the text of the question.
pub type AnswersV = Map<Seq<char>, OutcomeV>;

/// What references refer to.
pub open spec fn referents<C>(v: Seq<&C>) -> Seq<C> {
    Seq::new(v.len(), |i: int| *v[i])
}

// ---- One function ----

/// What the first `n` checkers infer that `f` requires.
pub open spec fn requires_upto<C: Checker>(
    p: &Program,
    f: FuncId,
    t: TableV,
    cs: Seq<C>,
    m: AnswersV,
    n: nat,
) -> Seq<ClauseV>
    decreases n,
{
    if n == 0 {
        Seq::empty()
    } else {
        let c = cs[n - 1];
        requires_upto(p, f, t, cs, m, (n - 1) as nat) + c.requires_of(
            p,
            f,
            t,
            verdicts_on(m, c.requires_asked(p, f, t)),
        )
    }
}

/// What the first `n` checkers infer that `f` guarantees.
pub open spec fn ensures_upto<C: Checker>(
    p: &Program,
    f: FuncId,
    t: TableV,
    cs: Seq<C>,
    m: AnswersV,
    n: nat,
) -> Seq<ClauseV>
    decreases n,
{
    if n == 0 {
        Seq::empty()
    } else {
        let c = cs[n - 1];
        ensures_upto(p, f, t, cs, m, (n - 1) as nat) + c.ensures_of(
            p,
            f,
            t,
            verdicts_on(m, c.ensures_asked(p, f, t)),
        )
    }
}

/// Whether one of the first `n` checkers fails to infer the clauses of `f`.
pub open spec fn inference_failed<C: Checker>(
    p: &Program,
    f: FuncId,
    t: TableV,
    cs: Seq<C>,
    m: AnswersV,
    n: nat,
) -> bool
    decreases n,
{
    n > 0 && {
        let c = cs[n - 1];
        inference_failed(p, f, t, cs, m, (n - 1) as nat) || c.fails_inferring(
            p,
            f,
            t,
            verdicts_on(m, c.requires_asked(p, f, t)),
            verdicts_on(m, c.ensures_asked(p, f, t)),
        )
    }
}

/// What a checker asks to infer what `f` guarantees.
pub open spec fn ensures_texts<C: Checker>(
    p: &Program,
    f: FuncId,
    t: TableV,
    c: C,
    m: AnswersV,
) -> Seq<Seq<char>> {
    let qs = c.ensures_asked(p, f, t);
    asked_texts(qs, c.ensures_skipped(p, f, t, verdicts_on(m, qs)), qs.len())
}

/// What the first `n` checkers ask to infer it. Those after one that fails are not asked.
pub open spec fn inference_asked<C: Checker>(
    p: &Program,
    f: FuncId,
    t: TableV,
    cs: Seq<C>,
    m: AnswersV,
    n: nat,
) -> Seq<Seq<char>>
    decreases n,
{
    if n == 0 {
        Seq::empty()
    } else {
        let b = (n - 1) as nat;
        let c = cs[n - 1];
        let before = inference_asked(p, f, t, cs, m, b);
        if inference_failed(p, f, t, cs, m, b) {
            before
        } else {
            before + texts_of(c.requires_asked(p, f, t)) + ensures_texts(p, f, t, c, m)
        }
    }
}

/// Whether the analysis of `f` fails: it has a body, and a checker fails on it.
pub open spec fn analysis_fails<C: Checker>(
    p: &Program,
    f: FuncId,
    t: TableV,
    cs: Seq<C>,
    m: AnswersV,
) -> bool {
    p.body(f) is Some && inference_failed(p, f, t, cs, m, cs.len())
}

/// What is said of each function, `d`, after an analysis of `f`: that it failed, if it did.
pub open spec fn faults_noted<C: Checker>(
    p: &Program,
    f: FuncId,
    t: TableV,
    cs: Seq<C>,
    m: AnswersV,
    d: Seq<Option<Seq<char>>>,
) -> Seq<Option<Seq<char>>> {
    if analysis_fails(p, f, t, cs, m) {
        d.update(f.0 as int, Some(analysis_fault(p, f)))
    } else {
        d
    }
}

/// The summary of `f`, given those of all functions: what it does, what the checkers infer,
/// and what its annotations say. A function without a body may do anything, and so may one
/// that a checker fails on.
pub open spec fn function_summary<C: Checker>(
    p: &Program,
    g: &CallGraph,
    f: FuncId,
    t: TableV,
    cs: Seq<C>,
    m: AnswersV,
    ann: Option<FuncAnnotations>,
) -> SummaryV {
    if p.body(f) is None || analysis_fails(p, f, t, cs, m) {
        summary_havoc_with(ann)
    } else {
        summary_merged(
            SummaryV {
                requires_: requires_upto(p, f, t, cs, m, cs.len()),
                ensures_: ensures_upto(p, f, t, cs, m, cs.len()),
                effects: collected(p, f, g, t),
                provenance: Provenance::Inferred,
            },
            ann,
        )
    }
}

/// What summarising `f` asks.
pub open spec fn function_asked<C: Checker>(
    p: &Program,
    f: FuncId,
    t: TableV,
    cs: Seq<C>,
    m: AnswersV,
) -> Seq<Seq<char>> {
    match p.body(f) {
        None => Seq::empty(),
        Some(_) => inference_asked(p, f, t, cs, m, cs.len()),
    }
}

proof fn lemma_stopped<C: Checker>(
    p: &Program,
    f: FuncId,
    t: TableV,
    cs: Seq<C>,
    m: AnswersV,
    k: nat,
    n: nat,
)
    requires
        k <= n,
        inference_failed(p, f, t, cs, m, k),
    ensures
        inference_failed(p, f, t, cs, m, n),
        inference_asked(p, f, t, cs, m, n) == inference_asked(p, f, t, cs, m, k),
    decreases n,
{
    if k < n {
        lemma_stopped(p, f, t, cs, m, k, (n - 1) as nat);
    }
}

/// The summary of `f`. Checkers run in the given order, and what they ask is noted in `asked`.
/// A checker that fails on `f` ends the analysis of `f`, which is noted in `diags`.
pub fn analyze_function<C: Checker>(
    p: &Program,
    g: &CallGraph,
    f: FuncId,
    t: &SummaryTable,
    cs: &Vec<&C>,
    answers: &Answers,
    asked: &mut Vec<String>,
    diags: &mut Vec<Option<String>>,
    ann: Option<&FuncAnnotations>,
) -> (r: Summary)
    requires
        t.wf(),
        answers.wf(),
        f.0 < old(diags)@.len(),
    ensures
        r.effects.wf(),
        r@ == function_summary(
            p,
            g,
            f,
            t@,
            referents(cs@),
            answers@,
            match ann {
                Some(a) => Some(*a),
                None => None,
            },
        ),
        views(final(asked)@) == views(old(asked)@) + function_asked(
            p,
            f,
            t@,
            referents(cs@),
            answers@,
        ),
        final(diags)@.len() == old(diags)@.len(),
        opt_views(final(diags)@) == faults_noted(
            p,
            f,
            t@,
            referents(cs@),
            answers@,
            opt_views(old(diags)@),
        ),
{
    let ghost start = views(asked@);
    if p.func(f).is_none() {
        assert(start + Seq::<Seq<char>>::empty() =~= start);
        return havoc_with(ann);
    }
    let effects = collect(p, f, g, t);
    let ghost cv = referents(cs@);
    let mut requires_: Vec<Clause> = Vec::new();
    let mut ensures_: Vec<Clause> = Vec::new();
    let mut i: usize = 0;
    proof {
        assert(clauses(requires_@) =~= Seq::<ClauseV>::empty());
        assert(clauses(ensures_@) =~= Seq::<ClauseV>::empty());
        assert(start + Seq::<Seq<char>>::empty() =~= start);
    }
    while i < cs.len()
        invariant
            i <= cs@.len(),
            cv == referents(cs@),
            t.wf(),
            answers.wf(),
            p.body(f) is Some,
            f.0 < diags@.len(),
            diags@ == old(diags)@,
            start == views(old(asked)@),
            !inference_failed(p, f, t@, cv, answers@, i as nat),
            clauses(requires_@) == requires_upto(p, f, t@, cv, answers@, i as nat),
            clauses(ensures_@) == ensures_upto(p, f, t@, cv, answers@, i as nat),
            views(asked@) == start + inference_asked(p, f, t@, cv, answers@, i as nat),
        decreases cs@.len() - i,
    {
        let c = cs[i];
        assert(cv[i as int] == *c);
        let ghost a0 = views(asked@);
        let rq = c.requires_queries(p, f, t);
        let rv = answers.ask_all(&rq, asked);
        let ghost a1 = views(asked@);
        let eq = c.ensures_queries(p, f, t);
        let ev = answers.verdicts(&eq);
        note(&eq, &c.skipped_ensures(p, f, t, &ev), asked);
        proof {
            let ra = texts_of(c.requires_asked(p, f, t@));
            let ea = ensures_texts(p, f, t@, *c, answers@);
            assert(queries_v(eq@).len() == eq@.len());
            let before = inference_asked(p, f, t@, cv, answers@, i as nat);
            assert(a1 == a0 + ra);
            assert(views(asked@) == a1 + ea);
            assert(start + before + ra + ea =~= start + (before + ra + ea));
        }
        if c.inference_fails(p, f, t, &rv, &ev) {
            proof {
                lemma_stopped(p, f, t@, cv, answers@, i as nat + 1, cv.len());
            }
            let note = analysis_fault_text(p, f);
            let ghost nv = note@;
            diags.set(f.0 as usize, Some(note));
            assert(opt_views(diags@) =~= opt_views(old(diags)@).update(f.0 as int, Some(nv)));
            return havoc_with(ann);
        }
        let mut rs = c.infer_requires(p, f, t, &rv);
        let mut es = c.infer_ensures(p, f, t, &ev);
        let ghost r0 = requires_@;
        let ghost e0 = ensures_@;
        let ghost rsv = rs@;
        let ghost esv = es@;
        requires_.append(&mut rs);
        ensures_.append(&mut es);
        proof {
            assert(clauses(requires_@) =~= clauses(r0) + clauses(rsv));
            assert(clauses(ensures_@) =~= clauses(e0) + clauses(esv));
        }
        i += 1;
    }
    let mut s = Summary { requires_, ensures_, effects, provenance: Provenance::Inferred };
    merge_annotations(&mut s, ann);
    s
}

// ---- A component ----

/// The state of a component while it is analysed.
pub struct ComponentV {
    pub table: TableV,
    pub asked: Seq<Seq<char>>,
    /// What went wrong with each function, in any round.
    pub diags: Seq<Option<Seq<char>>>,
    /// Whether the current round has changed a summary.
    pub changed: bool,
}

/// The state that a table, what was asked and what was said amount to.
pub open spec fn component_state(
    t: &SummaryTable,
    asked: &Vec<String>,
    diags: &Vec<Option<String>>,
    changed: bool,
) -> ComponentV {
    ComponentV { table: t@, asked: views(asked@), diags: opt_views(diags@), changed }
}

/// `t` with `s` as the summary of `f`.
pub open spec fn with_summary(t: TableV, f: FuncId, s: SummaryV) -> TableV {
    TableV { entries: t.entries.update(f.0 as int, Some(s)) }
}

/// The state after the first `n` members of a round. A member sees what those before it got.
pub open spec fn round_upto<C: Checker>(
    p: &Program,
    g: &CallGraph,
    members: Seq<FuncId>,
    cs: Seq<C>,
    m: AnswersV,
    anns: &Annotations,
    s: ComponentV,
    n: nat,
) -> ComponentV
    decreases n,
{
    if n == 0 {
        ComponentV { changed: false, ..s }
    } else {
        let b = round_upto(p, g, members, cs, m, anns, s, (n - 1) as nat);
        let f = members[n - 1];
        let new = function_summary(p, g, f, b.table, cs, m, anns.of(f));
        ComponentV {
            table: if b.table.summary(f) == new {
                b.table
            } else {
                with_summary(b.table, f, new)
            },
            asked: b.asked + function_asked(p, f, b.table, cs, m),
            diags: faults_noted(p, f, b.table, cs, m, b.diags),
            changed: b.changed || b.table.summary(f) != new,
        }
    }
}

/// `t` with nothing known yet of the first `n` members.
pub open spec fn started(t: TableV, members: Seq<FuncId>, n: nat) -> TableV
    decreases n,
{
    if n == 0 {
        t
    } else {
        with_summary(started(t, members, (n - 1) as nat), members[n - 1], summary_default())
    }
}

/// `t` with the first `n` members widened: they may do anything, and what their annotations
/// say stays.
pub open spec fn widened(t: TableV, members: Seq<FuncId>, anns: &Annotations, n: nat) -> TableV
    decreases n,
{
    if n == 0 {
        t
    } else {
        with_summary(
            widened(t, members, anns, (n - 1) as nat),
            members[n - 1],
            summary_havoc_with(anns.of(members[n - 1])),
        )
    }
}

/// Rounds until nothing changes. A component that is not recursive takes one; one that still
/// changes after `widen_after` further rounds is widened.
pub open spec fn settled<C: Checker>(
    p: &Program,
    g: &CallGraph,
    members: Seq<FuncId>,
    cs: Seq<C>,
    m: AnswersV,
    anns: &Annotations,
    recursive: bool,
    widen_after: nat,
    s: ComponentV,
    rounds: nat,
) -> ComponentV
    decreases widen_after - rounds,
{
    let r = round_upto(p, g, members, cs, m, anns, s, members.len());
    if !recursive || !r.changed {
        r
    } else if rounds >= widen_after {
        ComponentV { table: widened(r.table, members, anns, members.len()), ..r }
    } else {
        settled(p, g, members, cs, m, anns, recursive, widen_after, r, rounds + 1)
    }
}

/// Whether a component's members call each other or themselves.
pub open spec fn is_recursive(g: &CallGraph, members: Seq<FuncId>) -> bool {
    members.len() > 1 || exists|i: int|
        0 <= i < members.len() && g.callees_of(#[trigger] members[i]).contains(members[i])
}

/// The state after a component.
pub open spec fn component<C: Checker>(
    p: &Program,
    g: &CallGraph,
    members: Seq<FuncId>,
    cs: Seq<C>,
    m: AnswersV,
    anns: &Annotations,
    widen_after: nat,
    s: ComponentV,
) -> ComponentV {
    settled(
        p,
        g,
        members,
        cs,
        m,
        anns,
        is_recursive(g, members),
        widen_after,
        ComponentV { table: started(s.table, members, members.len()), ..s },
        0,
    )
}

fn calls(g: &CallGraph, f: FuncId) -> (r: bool)
    ensures
        r == g.callees_of(f).contains(f),
{
    let n = g.callee_count(f);
    let mut i: usize = 0;
    while i < n
        invariant
            i <= n,
            n == g.callees_of(f).len(),
            forall|j: int| 0 <= j < i ==> g.callees_of(f)[j] != f,
        decreases n - i,
    {
        if g.callee_at(f, i) == f {
            return true;
        }
        i += 1;
    }
    false
}

fn recursive(g: &CallGraph, members: &Vec<FuncId>) -> (r: bool)
    ensures
        r == is_recursive(g, members@),
{
    if members.len() > 1 {
        return true;
    }
    let mut i: usize = 0;
    while i < members.len()
        invariant
            i <= members@.len() <= 1,
            forall|j: int|
                0 <= j < i ==> !g.callees_of(#[trigger] members@[j]).contains(members@[j]),
        decreases members@.len() - i,
    {
        if calls(g, members[i]) {
            return true;
        }
        i += 1;
    }
    false
}

/// Sets the summary of `f`.
pub fn set_summary(t: &mut SummaryTable, f: FuncId, s: Summary)
    requires
        old(t).wf(),
        s.effects.wf(),
        f.0 < old(t).entries@.len(),
    ensures
        final(t).wf(),
        final(t)@ == with_summary(old(t)@, f, s@),
        final(t).entries@.len() == old(t).entries@.len(),
{
    let ghost sv = s@;
    let ghost before = t.entries@;
    t.entries.set(f.0 as usize, Some(s));
    assert(t@.entries =~= with_summary(old(t)@, f, sv).entries);
}

/// Whether all members are functions with a place in a table of `n`.
pub open spec fn members_fit(members: Seq<FuncId>, n: nat) -> bool {
    forall|i: int| 0 <= i < members.len() ==> (#[trigger] members[i]).0 < n
}

fn start_members(t: &mut SummaryTable, members: &Vec<FuncId>)
    requires
        old(t).wf(),
        members_fit(members@, old(t).entries@.len()),
    ensures
        final(t).wf(),
        final(t)@ == started(old(t)@, members@, members@.len()),
        final(t).entries@.len() == old(t).entries@.len(),
{
    let ghost t0 = t@;
    let ghost len = t.entries@.len();
    let mut i: usize = 0;
    while i < members.len()
        invariant
            i <= members@.len(),
            t.wf(),
            t.entries@.len() == len,
            members_fit(members@, len),
            t@ == started(t0, members@, i as nat),
        decreases members@.len() - i,
    {
        set_summary(t, members[i], Summary::default());
        i += 1;
    }
}

fn widen_members(t: &mut SummaryTable, members: &Vec<FuncId>, anns: &Annotations)
    requires
        old(t).wf(),
        members_fit(members@, old(t).entries@.len()),
    ensures
        final(t).wf(),
        final(t)@ == widened(old(t)@, members@, anns, members@.len()),
        final(t).entries@.len() == old(t).entries@.len(),
{
    let ghost t0 = t@;
    let ghost len = t.entries@.len();
    let mut i: usize = 0;
    while i < members.len()
        invariant
            i <= members@.len(),
            t.wf(),
            t.entries@.len() == len,
            members_fit(members@, len),
            t@ == widened(t0, members@, anns, i as nat),
        decreases members@.len() - i,
    {
        set_summary(t, members[i], havoc_with(anns.get(members[i])));
        i += 1;
    }
}

/// One round over a component; tells whether a summary changed.
fn round<C: Checker>(
    p: &Program,
    g: &CallGraph,
    members: &Vec<FuncId>,
    cs: &Vec<&C>,
    answers: &Answers,
    anns: &Annotations,
    t: &mut SummaryTable,
    asked: &mut Vec<String>,
    diags: &mut Vec<Option<String>>,
) -> (r: bool)
    requires
        old(t).wf(),
        answers.wf(),
        members_fit(members@, old(t).entries@.len()),
        members_fit(members@, old(diags)@.len()),
    ensures
        final(t).wf(),
        final(t).entries@.len() == old(t).entries@.len(),
        final(diags)@.len() == old(diags)@.len(),
        component_state(final(t), final(asked), final(diags), r) == round_upto(
            p,
            g,
            members@,
            referents(cs@),
            answers@,
            anns,
            component_state(old(t), old(asked), old(diags), false),
            members@.len(),
        ),
{
    let ghost cv = referents(cs@);
    let ghost s0 = component_state(t, asked, diags, false);
    let ghost len = t.entries@.len();
    let ghost said = diags@.len();
    let mut changed = false;
    let mut i: usize = 0;
    while i < members.len()
        invariant
            i <= members@.len(),
            cv == referents(cs@),
            t.wf(),
            answers.wf(),
            t.entries@.len() == len,
            members_fit(members@, len),
            diags@.len() == said,
            members_fit(members@, said),
            component_state(t, asked, diags, changed) == round_upto(
                p,
                g,
                members@,
                cv,
                answers@,
                anns,
                s0,
                i as nat,
            ),
        decreases members@.len() - i,
    {
        let f = members[i];
        let new = analyze_function(p, g, f, t, cs, answers, asked, diags, anns.get(f));
        let same = match t.get(f) {
            Some(s) => s.same(&new),
            None => {
                let h = Summary::havoc();
                h.same(&new)
            },
        };
        if !same {
            set_summary(t, f, new);
            changed = true;
        }
        i += 1;
    }
    changed
}

proof fn lemma_round_resets<C: Checker>(
    p: &Program,
    g: &CallGraph,
    members: Seq<FuncId>,
    cs: Seq<C>,
    m: AnswersV,
    anns: &Annotations,
    s: ComponentV,
    n: nat,
)
    ensures
        round_upto(p, g, members, cs, m, anns, s, n) == round_upto(
            p,
            g,
            members,
            cs,
            m,
            anns,
            (ComponentV { changed: false, ..s }),
            n,
        ),
    decreases n,
{
    if n > 0 {
        lemma_round_resets(p, g, members, cs, m, anns, s, (n - 1) as nat);
    }
}

proof fn lemma_settled_resets<C: Checker>(
    p: &Program,
    g: &CallGraph,
    members: Seq<FuncId>,
    cs: Seq<C>,
    m: AnswersV,
    anns: &Annotations,
    recursive: bool,
    widen_after: nat,
    s: ComponentV,
    rounds: nat,
)
    ensures
        settled(p, g, members, cs, m, anns, recursive, widen_after, s, rounds) == settled(
            p,
            g,
            members,
            cs,
            m,
            anns,
            recursive,
            widen_after,
            (ComponentV { changed: false, ..s }),
            rounds,
        ),
{
    lemma_round_resets(p, g, members, cs, m, anns, s, members.len());
}

/// Analyses a component: summaries of its members from those of everything below it.
pub fn analyze_component<C: Checker>(
    p: &Program,
    g: &CallGraph,
    members: &Vec<FuncId>,
    cs: &Vec<&C>,
    answers: &Answers,
    anns: &Annotations,
    widen_after: u32,
    t: &mut SummaryTable,
    asked: &mut Vec<String>,
    diags: &mut Vec<Option<String>>,
)
    requires
        old(t).wf(),
        answers.wf(),
        members_fit(members@, old(t).entries@.len()),
        members_fit(members@, old(diags)@.len()),
    ensures
        final(t).wf(),
        final(t).entries@.len() == old(t).entries@.len(),
        final(diags)@.len() == old(diags)@.len(),
        ({
            let r = component(
                p,
                g,
                members@,
                referents(cs@),
                answers@,
                anns,
                widen_after as nat,
                component_state(old(t), old(asked), old(diags), false),
            );
            &&& final(t)@ == r.table
            &&& views(final(asked)@) == r.asked
            &&& opt_views(final(diags)@) == r.diags
        }),
{
    let ghost cv = referents(cs@);
    let ghost s0 = component_state(t, asked, diags, false);
    let ghost len = t.entries@.len();
    let ghost said = diags@.len();
    let rec = recursive(g, members);
    start_members(t, members);
    let mut rounds: u32 = 0;
    let ghost whole = component(p, g, members@, cv, answers@, anns, widen_after as nat, s0);
    loop
        invariant_except_break
            whole == settled(
                p,
                g,
                members@,
                cv,
                answers@,
                anns,
                rec,
                widen_after as nat,
                component_state(t, asked, diags, false),
                rounds as nat,
            ),
        invariant
            t.wf(),
            answers.wf(),
            t.entries@.len() == len,
            members_fit(members@, len),
            diags@.len() == said,
            members_fit(members@, said),
            cv == referents(cs@),
            rounds <= widen_after,
        ensures
            t.wf(),
            t.entries@.len() == len,
            whole.table == t@,
            whole.asked == views(asked@),
            diags@.len() == said,
            whole.diags == opt_views(diags@),
        decreases widen_after - rounds,
    {
        let changed = round(p, g, members, cs, answers, anns, t, asked, diags);
        if !rec || !changed {
            break;
        }
        if rounds >= widen_after {
            widen_members(t, members, anns);
            break;
        }
        proof {
            let r = component_state(t, asked, diags, true);
            lemma_settled_resets(
                p,
                g,
                members@,
                cv,
                answers@,
                anns,
                rec,
                widen_after as nat,
                r,
                rounds as nat + 1,
            );
        }
        rounds += 1;
    }
}

// ---- What a component comes to ----

/// Whether the members' summaries are what analysing them gives back.
pub open spec fn is_fixpoint<C: Checker>(
    p: &Program,
    g: &CallGraph,
    members: Seq<FuncId>,
    cs: Seq<C>,
    m: AnswersV,
    anns: &Annotations,
    t: TableV,
) -> bool {
    forall|i: int|
        0 <= i < members.len() ==> t.summary(#[trigger] members[i]) == function_summary(
            p,
            g,
            members[i],
            t,
            cs,
            m,
            anns.of(members[i]),
        )
}

/// Whether the members may do anything, and state what their annotations state.
pub open spec fn is_widened(members: Seq<FuncId>, anns: &Annotations, t: TableV) -> bool {
    forall|i: int|
        0 <= i < members.len() ==> t.summary(#[trigger] members[i]) == summary_havoc_with(
            anns.of(members[i]),
        )
}

proof fn lemma_unchanged_round<C: Checker>(
    p: &Program,
    g: &CallGraph,
    members: Seq<FuncId>,
    cs: Seq<C>,
    m: AnswersV,
    anns: &Annotations,
    s: ComponentV,
    n: nat,
)
    requires
        n <= members.len(),
        !round_upto(p, g, members, cs, m, anns, s, n).changed,
    ensures
        round_upto(p, g, members, cs, m, anns, s, n).table == s.table,
        forall|i: int|
            0 <= i < n ==> s.table.summary(#[trigger] members[i]) == function_summary(
                p,
                g,
                members[i],
                s.table,
                cs,
                m,
                anns.of(members[i]),
            ),
    decreases n,
{
    if n > 0 {
        lemma_unchanged_round(p, g, members, cs, m, anns, s, (n - 1) as nat);
    }
}

proof fn lemma_widened(t: TableV, members: Seq<FuncId>, anns: &Annotations, n: nat)
    requires
        n <= members.len(),
        members_fit(members, t.entries.len()),
    ensures
        widened(t, members, anns, n).entries.len() == t.entries.len(),
        forall|i: int|
            0 <= i < n ==> widened(t, members, anns, n).summary(#[trigger] members[i])
                == summary_havoc_with(anns.of(members[i])),
    decreases n,
{
    if n > 0 {
        lemma_widened(t, members, anns, (n - 1) as nat);
    }
}

proof fn lemma_round_len<C: Checker>(
    p: &Program,
    g: &CallGraph,
    members: Seq<FuncId>,
    cs: Seq<C>,
    m: AnswersV,
    anns: &Annotations,
    s: ComponentV,
    n: nat,
)
    requires
        n <= members.len(),
        members_fit(members, s.table.entries.len()),
    ensures
        round_upto(p, g, members, cs, m, anns, s, n).table.entries.len() == s.table.entries.len(),
    decreases n,
{
    if n > 0 {
        lemma_round_len(p, g, members, cs, m, anns, s, (n - 1) as nat);
    }
}

proof fn lemma_settles<C: Checker>(
    p: &Program,
    g: &CallGraph,
    members: Seq<FuncId>,
    cs: Seq<C>,
    m: AnswersV,
    anns: &Annotations,
    widen_after: nat,
    s: ComponentV,
    rounds: nat,
)
    requires
        members_fit(members, s.table.entries.len()),
    ensures
        ({
            let r = settled(p, g, members, cs, m, anns, true, widen_after, s, rounds);
            is_fixpoint(p, g, members, cs, m, anns, r.table) || is_widened(members, anns, r.table)
        }),
    decreases widen_after - rounds,
{
    let r = round_upto(p, g, members, cs, m, anns, s, members.len());
    lemma_round_len(p, g, members, cs, m, anns, s, members.len());
    if !r.changed {
        lemma_unchanged_round(p, g, members, cs, m, anns, s, members.len());
    } else if rounds >= widen_after {
        lemma_widened(r.table, members, anns, members.len());
    } else {
        lemma_settles(p, g, members, cs, m, anns, widen_after, r, rounds + 1);
    }
}

proof fn lemma_started_len(t: TableV, members: Seq<FuncId>, n: nat)
    requires
        n <= members.len(),
        members_fit(members, t.entries.len()),
    ensures
        started(t, members, n).entries.len() == t.entries.len(),
    decreases n,
{
    if n > 0 {
        lemma_started_len(t, members, (n - 1) as nat);
    }
}

/// A recursive component ends with summaries that analysing its members again would not
/// change, or with all members widened. Widening drops every inferred clause and keeps every
/// annotated one.
pub proof fn component_settles_or_widens<C: Checker>(
    p: &Program,
    g: &CallGraph,
    members: Seq<FuncId>,
    cs: Seq<C>,
    m: AnswersV,
    anns: &Annotations,
    widen_after: nat,
    s: ComponentV,
)
    requires
        members_fit(members, s.table.entries.len()),
        is_recursive(g, members),
    ensures
        ({
            let r = component(p, g, members, cs, m, anns, widen_after, s);
            is_fixpoint(p, g, members, cs, m, anns, r.table) || is_widened(members, anns, r.table)
        }),
{
    lemma_started_len(s.table, members, members.len());
    lemma_settles(
        p,
        g,
        members,
        cs,
        m,
        anns,
        widen_after,
        (ComponentV { table: started(s.table, members, members.len()), ..s }),
        0,
    );
}

/// Without checkers nothing is inferred and nothing is asked: a function without annotations
/// requires and guarantees nothing.
pub proof fn no_checkers_infer_nothing<C: Checker>(
    p: &Program,
    g: &CallGraph,
    f: FuncId,
    t: TableV,
    m: AnswersV,
)
    ensures
        function_summary(p, g, f, t, Seq::<C>::empty(), m, None).requires_.len() == 0,
        function_summary(p, g, f, t, Seq::<C>::empty(), m, None).ensures_.len() == 0,
        function_asked(p, f, t, Seq::<C>::empty(), m).len() == 0,
{
}

} // verus!
