//! A checker that fails while clauses are inferred costs what it would have inferred.

use vstd::prelude::*;
use crate::annotations::{Annotations, FuncAnnotations};
use crate::checker::Checker;
use crate::checkers::AnyChecker;
use crate::engine::{after_component, input_fits, is_hit, InputV, RunV};
use crate::faults::analysis_fault;
use crate::fixpoint::{
    analysis_fails, function_summary, is_recursive, members_fit, round_upto, settled, started,
    AnswersV, ComponentV,
};
use crate::ir::{CallGraph, FuncId, Program};
use crate::query::SatResult;
use crate::summary::{summary_havoc_with, TableV};

verus! {

/// Whether the analysis of `f` fails among the first `n` members of a round.
pub open spec fn fails_in_round<C: Checker>(
    p: &Program,
    g: &CallGraph,
    members: Seq<FuncId>,
    cs: Seq<C>,
    m: AnswersV,
    anns: &Annotations,
    s: ComponentV,
    n: nat,
    f: FuncId,
) -> bool
    decreases n,
{
    n > 0 && {
        let k = (n - 1) as nat;
        let b = round_upto(p, g, members, cs, m, anns, s, k);
        fails_in_round(p, g, members, cs, m, anns, s, k, f) || (members[n - 1] == f
            && analysis_fails(p, f, b.table, cs, m))
    }
}

/// Whether the analysis of `f` fails in any round.
pub open spec fn fails_in_a_round<C: Checker>(
    p: &Program,
    g: &CallGraph,
    members: Seq<FuncId>,
    cs: Seq<C>,
    m: AnswersV,
    anns: &Annotations,
    recursive: bool,
    widen_after: nat,
    s: ComponentV,
    rounds: nat,
    f: FuncId,
) -> bool
    decreases widen_after - rounds,
{
    let n = members.len();
    let r = round_upto(p, g, members, cs, m, anns, s, n);
    ||| fails_in_round(p, g, members, cs, m, anns, s, n, f)
    ||| recursive && r.changed && rounds < widen_after && fails_in_a_round(
        p,
        g,
        members,
        cs,
        m,
        anns,
        recursive,
        widen_after,
        r,
        rounds + 1,
        f,
    )
}

proof fn lemma_round<C: Checker>(
    p: &Program,
    g: &CallGraph,
    members: Seq<FuncId>,
    cs: Seq<C>,
    m: AnswersV,
    anns: &Annotations,
    s: ComponentV,
    n: nat,
    f: FuncId,
)
    requires
        n <= members.len(),
        members_fit(members, s.diags.len()),
        f.0 < s.diags.len(),
    ensures
        ({
            let r = round_upto(p, g, members, cs, m, anns, s, n);
            &&& r.diags.len() == s.diags.len()
            &&& r.diags[f.0 as int] == (if fails_in_round(p, g, members, cs, m, anns, s, n, f) {
                Some(analysis_fault(p, f))
            } else {
                s.diags[f.0 as int]
            })
        }),
    decreases n,
{
    if n > 0 {
        lemma_round(p, g, members, cs, m, anns, s, (n - 1) as nat, f);
        assert(members[n - 1].0 < s.diags.len());
        if members[n - 1].0 == f.0 {
            assert(members[n - 1] == f);
        }
    }
}

proof fn lemma_settled<C: Checker>(
    p: &Program,
    g: &CallGraph,
    members: Seq<FuncId>,
    cs: Seq<C>,
    m: AnswersV,
    anns: &Annotations,
    recursive: bool,
    widen_after: nat,
    s: ComponentV,
    rounds: nat,
    f: FuncId,
)
    requires
        members_fit(members, s.diags.len()),
        f.0 < s.diags.len(),
    ensures
        settled(p, g, members, cs, m, anns, recursive, widen_after, s, rounds).diags[f.0 as int]
            == (if fails_in_a_round(
            p,
            g,
            members,
            cs,
            m,
            anns,
            recursive,
            widen_after,
            s,
            rounds,
            f,
        ) {
            Some(analysis_fault(p, f))
        } else {
            s.diags[f.0 as int]
        }),
    decreases widen_after - rounds,
{
    let r = round_upto(p, g, members, cs, m, anns, s, members.len());
    lemma_round(p, g, members, cs, m, anns, s, members.len(), f);
    if recursive && r.changed && rounds < widen_after {
        lemma_settled(p, g, members, cs, m, anns, recursive, widen_after, r, rounds + 1, f);
    }
}

/// A function whose analysis fails may do anything in that round, and keeps what its
/// annotations say.
pub proof fn failed_analysis_is_havoc<C: Checker>(
    p: &Program,
    g: &CallGraph,
    f: FuncId,
    t: TableV,
    cs: Seq<C>,
    m: AnswersV,
    ann: Option<FuncAnnotations>,
)
    requires
        analysis_fails(p, f, t, cs, m),
    ensures
        function_summary(p, g, f, t, cs, m, ann) == summary_havoc_with(ann),
{
}

/// The checkers of this library never fail.
pub proof fn own_checkers_never_fail(
    c: AnyChecker,
    p: &Program,
    f: FuncId,
    t: TableV,
    rv: Seq<SatResult>,
    ev: Seq<SatResult>,
)
    ensures
        !c.fails_inferring(p, f, t, rv, ev),
        !c.fails_checking(p, f, t),
{
}

/// It is said of a function that its analysis failed if and only if it failed in some round of
/// its component.
pub proof fn failed_analysis_is_said<C: Checker>(
    p: &Program,
    inp: InputV<C>,
    s: RunV,
    si: int,
    f: FuncId,
)
    requires
        input_fits(p, inp),
        0 <= si < inp.sccs.schedule@.len(),
        s.diags.len() == p.funcs@.len(),
        f.0 < p.funcs@.len(),
        !is_hit(p, inp, si),
    ensures
        ({
            let members = inp.sccs.schedule@[si]@;
            let at = ComponentV {
                table: started(s.table, members, members.len()),
                asked: s.asked,
                diags: s.diags,
                changed: false,
            };
            after_component(p, inp, s, si).diags[f.0 as int] == (if fails_in_a_round(
                p,
                &inp.graph,
                members,
                inp.checkers,
                inp.infer,
                &inp.anns,
                is_recursive(&inp.graph, members),
                inp.widen_after,
                at,
                0,
                f,
            ) {
                Some(analysis_fault(p, f))
            } else {
                s.diags[f.0 as int]
            })
        }),
{
    let members = inp.sccs.schedule@[si]@;
    assert(members_fit(members, p.funcs@.len())) by {
        assert forall|j: int| 0 <= j < members.len() implies (#[trigger] members[j]).0
            < p.funcs@.len() by {
            assert(inp.sccs.schedule@[si]@[j].0 < p.funcs@.len());
        }
    }
    let at = ComponentV {
        table: started(s.table, members, members.len()),
        asked: s.asked,
        diags: s.diags,
        changed: false,
    };
    lemma_settled(
        p,
        &inp.graph,
        members,
        inp.checkers,
        inp.infer,
        &inp.anns,
        is_recursive(&inp.graph, members),
        inp.widen_after,
        at,
        0,
        f,
    );
}

} // verus!
