//! Annotated contracts: violated requirements at calls, and guarantees that the body does not
//! live up to.

use vstd::prelude::*;
use crate::annotations::{AnnClause, Annotations};
use crate::checker::{
    answer_place, findings_v, obligations_v, pairs_v, queries_v, trace_v, verdict, verdict_at,
    Finding, FindingV, Obligation, ObligationV, Severity, TraceStepV,
};
use crate::encode::{opt_seq, value_terms, values_at, EncodedFunc, EncodedV};
use crate::ir::{clone_pos, opt_pos, Callee, FuncId, Function, Op, Program, Site, TypeKind, ValueId};
use crate::query::{Query, QueryV, SatResult};
use crate::rets::{has_returns, ret_sites, return_sites, returned, returns_fit};
use crate::summary::{
    bind_clauses, bound_clause, bounds_v, clauses, opt_terms, summary_havoc, Clause, Provenance,
    Summary, SummaryTable, SummaryV, TableV,
};
use crate::term::{opt_term, terms, Term, TermV};

verus! {

/// The tag of annotated clauses and of what violates them.
pub const CONTRACT: &'static str = "contract";

/// The tag of findings about annotations that cannot be read.
pub const BAD_ANNOTATION: &'static str = "bad-annotation";

/// The tag of findings about annotated guarantees that are not proved.
pub const UNVERIFIED_ANNOTATION: &'static str = "unverified-annotation";

// ---- Requirements ----

/// Whether a checker already inferred the requirement `t`, and so reports it.
pub open spec fn covered(s: SummaryV, t: TermV) -> bool {
    exists|i: int|
        0 <= i < s.requires_.len() && (#[trigger] s.requires_[i]).provenance == Provenance::Inferred
            && s.requires_[i].term == t
}

/// What is reported of a violated annotation.
pub open spec fn contract_message(p: &Program, c: FuncId, text: Seq<char>) -> Seq<char> {
    "call to "@ + p.name_of(c) + " violates annotated requires `"@ + text + "`"@
}

/// What may go wrong with the annotated requirement `a` of callee `c`, called at `s`.
pub open spec fn contract_obligation(
    p: &Program,
    f: &Function,
    e: EncodedV,
    pre: Seq<TermV>,
    t: TableV,
    s: Site,
    c: FuncId,
    args: Seq<ValueId>,
    a: AnnClause,
) -> Option<ObligationV> {
    if covered(t.summary(c), a.clause@.term) {
        None
    } else {
        match bound_clause(a.clause@, values_at(e, args), Seq::empty()).violation {
            Some(v) => Some(
                ObligationV {
                    tag: CONTRACT@,
                    message: contract_message(p, c, a.text@),
                    pos: f.pos_at(s),
                    query: e.reach(s.0 as int, pre.push(v)),
                },
            ),
            None => None,
        }
    }
}

/// What may go wrong with the first `n` annotated requirements at one call.
pub open spec fn contract_at(
    p: &Program,
    f: &Function,
    e: EncodedV,
    pre: Seq<TermV>,
    t: TableV,
    s: Site,
    c: FuncId,
    args: Seq<ValueId>,
    anns: Seq<AnnClause>,
    n: int,
) -> Seq<ObligationV>
    decreases n,
{
    if n <= 0 {
        Seq::empty()
    } else {
        contract_at(p, f, e, pre, t, s, c, args, anns, n - 1) + opt_seq(
            contract_obligation(p, f, e, pre, t, s, c, args, anns[n - 1]),
        )
    }
}

/// What may go wrong with annotated requirements at the first `k` instructions.
pub open spec fn contracts_upto(
    p: &Program,
    f: &Function,
    e: EncodedV,
    pre: Seq<TermV>,
    anns: &Annotations,
    t: TableV,
    k: int,
) -> Seq<ObligationV>
    decreases k,
{
    if k <= 0 {
        Seq::empty()
    } else {
        let before = contracts_upto(p, f, e, pre, anns, t, k - 1);
        let s = f.sites()[k - 1];
        match f.op_at(s) {
            Op::Call { callee: Callee::Static(c), args, .. } => match anns.of(c) {
                Some(a) => before + contract_at(
                    p,
                    f,
                    e,
                    pre,
                    t,
                    s,
                    c,
                    args@,
                    a.requires_@,
                    a.requires_@.len() as int,
                ),
                None => before,
            },
            _ => before,
        }
    }
}

fn is_covered(s: Option<&Summary>, t: &Term) -> (r: bool)
    ensures
        r == (match s {
            Some(x) => covered(x@, t@),
            None => false,
        }),
{
    match s {
        Some(x) => {
            let mut i: usize = 0;
            while i < x.requires_.len()
                invariant
                    i <= x.requires_@.len(),
                    s == Some(x),
                    forall|j: int|
                        0 <= j < i ==> !((#[trigger] x@.requires_[j]).provenance == Provenance::Inferred
                            && x@.requires_[j].term == t@),
                decreases x.requires_@.len() - i,
            {
                let c = &x.requires_[i];
                assert(x@.requires_[i as int] == c@);
                if c.provenance == Provenance::Inferred && c.formula.term.same(t) {
                    return true;
                }
                i += 1;
            }
            false
        },
        None => false,
    }
}

fn bind_one(c: &Clause, args: &Vec<Option<Term>>, results: &Vec<Option<Term>>) -> (r: Option<Term>)
    ensures
        opt_term(r) == bound_clause(c@, opt_terms(args@), opt_terms(results@)).violation,
{
    let mut cs: Vec<Clause> = Vec::new();
    cs.push(c.clone());
    let bs = bind_clauses(&cs, args, results);
    assert(clauses(cs@)[0] == c@);
    assert(bounds_v(bs@).len() == 1);
    assert(bounds_v(bs@)[0] == bs@[0]@);
    match &bs[0].violation {
        Some(v) => Some(v.dup()),
        None => None,
    }
}

fn contract_text(p: &Program, c: FuncId, text: &str) -> (r: String)
    ensures
        r@ == contract_message(p, c, text@),
{
    let mut m = "call to ".to_string();
    m.append(p.func_name(c));
    m.append(" violates annotated requires `");
    m.append(text);
    m.append("`");
    m
}

fn add_contracts(
    p: &Program,
    f: &Function,
    enc: &EncodedFunc,
    pre: &Vec<Term>,
    t: &SummaryTable,
    s: Site,
    c: FuncId,
    args: &Vec<ValueId>,
    anns: &Vec<AnnClause>,
    out: &mut Vec<Obligation>,
)
    requires
        enc.wf(),
        t.wf(),
        f.has_site(s),
    ensures
        obligations_v(final(out)@) == obligations_v(old(out)@) + contract_at(
            p,
            f,
            enc@,
            terms(pre@),
            t@,
            s,
            c,
            args@,
            anns@,
            anns@.len() as int,
        ),
{
    let ghost start = obligations_v(out@);
    let ghost pv = terms(pre@);
    let av = value_terms(enc, args);
    let none: Vec<Option<Term>> = Vec::new();
    let summary = t.get(c);
    assert(opt_terms(none@) =~= Seq::<Option<TermV>>::empty());
    assert(start + Seq::<ObligationV>::empty() =~= start);
    let mut i: usize = 0;
    while i < anns.len()
        invariant
            i <= anns@.len(),
            enc.wf(),
            f.has_site(s),
            pv == terms(pre@),
            opt_terms(av@) == values_at(enc@, args@),
            opt_terms(none@) == Seq::<Option<TermV>>::empty(),
            match summary {
                Some(x) => t.summary(c) == x@,
                None => t.summary(c) == summary_havoc(),
            },
            obligations_v(out@) == start + contract_at(
                p,
                f,
                enc@,
                pv,
                t@,
                s,
                c,
                args@,
                anns@,
                i as int,
            ),
        decreases anns@.len() - i,
    {
        let a = &anns[i];
        let ghost before = out@;
        let ghost want = contract_obligation(p, f, enc@, pv, t@, s, c, args@, *a);
        let mut found: Option<Obligation> = None;
        if !is_covered(summary, &a.clause.formula.term) {
            if let Some(v) = bind_one(&a.clause, &av, &none) {
                let mut extra = Term::dup_list(pre);
                let ghost vv = v@;
                extra.push(v);
                assert(terms(extra@) =~= pv.push(vv));
                found = Some(
                    Obligation {
                        tag: CONTRACT.to_string(),
                        message: contract_text(p, c, a.text.as_str()),
                        pos: clone_pos(&f.blocks[s.0].instrs[s.1].pos),
                        query: enc.reach_query(s.0, extra),
                    },
                );
            }
        }
        match found {
            Some(o) => {
                assert(want == Some(o@));
                let ghost o_v = o@;
                out.push(o);
                assert(obligations_v(out@) =~= obligations_v(before) + seq![o_v]);
            },
            None => {
                assert(want is None);
                assert(obligations_v(out@) =~= obligations_v(before) + Seq::<ObligationV>::empty());
            },
        }
        i += 1;
        assert(obligations_v(out@) =~= start + contract_at(
            p,
            f,
            enc@,
            pv,
            t@,
            s,
            c,
            args@,
            anns@,
            i as int,
        ));
    }
}

/// What may go wrong at calls of functions with annotated requirements, while the caller's own
/// requirements hold. One that a checker inferred as well is left to the checker.
pub fn contract_obligations(
    p: &Program,
    f: &Function,
    enc: &EncodedFunc,
    pre: &Vec<Term>,
    anns: &Annotations,
    t: &SummaryTable,
) -> (r: Vec<Obligation>)
    requires
        enc.wf(),
        t.wf(),
    ensures
        obligations_v(r@) == contracts_upto(
            p,
            f,
            enc@,
            terms(pre@),
            anns,
            t@,
            f.sites().len() as int,
        ),
{
    let sites = f.all_sites();
    let mut out: Vec<Obligation> = Vec::new();
    assert(obligations_v(out@) =~= Seq::<ObligationV>::empty());
    let mut k: usize = 0;
    while k < sites.len()
        invariant
            k <= sites@.len(),
            sites@ == f.sites(),
            forall|k: int| 0 <= k < sites@.len() ==> f.has_site(#[trigger] sites@[k]),
            enc.wf(),
            t.wf(),
            obligations_v(out@) == contracts_upto(p, f, enc@, terms(pre@), anns, t@, k as int),
        decreases sites@.len() - k,
    {
        let s = sites[k];
        if let Op::Call { callee: Callee::Static(c), args, .. } = f.op(s) {
            if let Some(a) = anns.get(*c) {
                add_contracts(p, f, enc, pre, t, s, *c, args, &a.requires_, &mut out);
            }
        }
        k += 1;
    }
    out
}

// ---- Guarantees ----

/// What is reported of an annotated guarantee that is not proved.
pub open spec fn unverified(p: &Program, f: FuncId, a: AnnClause) -> FindingV {
    FindingV {
        checker: UNVERIFIED_ANNOTATION@,
        tag: UNVERIFIED_ANNOTATION@,
        func: p.name_of(f),
        pos: opt_pos(a.pos),
        message: "annotated ensures `"@ + a.text@
            + "` not proven against the body; callers still assume it"@,
        trace: Seq::empty(),
        model: Seq::empty(),
        severity: Severity::Warning,
    }
}

/// How the guarantee `a` is violated at the return at `s`.
pub open spec fn violated_return(f: &Function, e: EncodedV, a: AnnClause, s: Site) -> Option<TermV> {
    bound_clause(a.clause@, values_at(e, f.params@), values_at(e, returned(f, s))).violation
}

/// The query whether the guarantee `a` can be violated at the return at `s`.
pub open spec fn return_query(
    f: &Function,
    e: EncodedV,
    own: Seq<TermV>,
    a: AnnClause,
    s: Site,
) -> Option<QueryV> {
    match violated_return(f, e, a, s) {
        Some(v) => Some(e.reach(s.0 as int, own.push(v))),
        None => None,
    }
}

/// The queries about the guarantee `a` at the first `j` returns.
pub open spec fn return_queries(
    f: &Function,
    e: EncodedV,
    own: Seq<TermV>,
    a: AnnClause,
    j: int,
) -> Seq<QueryV>
    decreases j,
{
    if j <= 0 {
        Seq::empty()
    } else {
        return_queries(f, e, own, a, j - 1) + opt_seq(
            return_query(f, e, own, a, ret_sites(f)[j - 1]),
        )
    }
}

/// The queries about the first `i` guarantees.
pub open spec fn clause_queries(
    f: &Function,
    e: EncodedV,
    own: Seq<TermV>,
    anns: Seq<AnnClause>,
    i: int,
) -> Seq<QueryV>
    decreases i,
{
    if i <= 0 {
        Seq::empty()
    } else {
        clause_queries(f, e, own, anns, i - 1) + return_queries(
            f,
            e,
            own,
            anns[i - 1],
            ret_sites(f).len() as int,
        )
    }
}

/// Whether the answers show that guarantee `i` holds at return `j`.
pub open spec fn holds_at(
    f: &Function,
    e: EncodedV,
    own: Seq<TermV>,
    anns: Seq<AnnClause>,
    verdicts: Seq<SatResult>,
    i: int,
    j: int,
) -> bool {
    return_query(f, e, own, anns[i], ret_sites(f)[j]) is Some && verdict_at(
        verdicts,
        (clause_queries(f, e, own, anns, i).len() + return_queries(f, e, own, anns[i], j).len()) as int,
    ) == SatResult::Unsat
}

/// Whether the answers show that guarantee `i` holds at every return.
pub open spec fn proven(
    f: &Function,
    e: EncodedV,
    own: Seq<TermV>,
    anns: Seq<AnnClause>,
    verdicts: Seq<SatResult>,
    i: int,
) -> bool {
    forall|j: int|
        0 <= j < ret_sites(f).len() ==> #[trigger] holds_at(f, e, own, anns, verdicts, i, j)
}

/// What is reported of the first `i` guarantees.
pub open spec fn unproven_upto(
    p: &Program,
    id: FuncId,
    f: &Function,
    e: EncodedV,
    own: Seq<TermV>,
    anns: Seq<AnnClause>,
    verdicts: Seq<SatResult>,
    i: int,
) -> Seq<FindingV>
    decreases i,
{
    if i <= 0 {
        Seq::empty()
    } else {
        let before = unproven_upto(p, id, f, e, own, anns, verdicts, i - 1);
        if proven(f, e, own, anns, verdicts, i - 1) {
            before
        } else {
            before.push(unverified(p, id, anns[i - 1]))
        }
    }
}

/// All guarantees reported.
pub open spec fn all_unverified(p: &Program, id: FuncId, anns: Seq<AnnClause>) -> Seq<FindingV> {
    Seq::new(anns.len(), |i: int| unverified(p, id, anns[i]))
}

/// Whether the guarantees of `id` can be checked: it has a body that is encoded, and its
/// returns fit its signature.
pub open spec fn checkable(p: &Program, id: FuncId, e: Option<EncodedV>) -> bool {
    match (p.body(id), e) {
        (Some(f), Some(_)) => has_returns(p, &f),
        _ => false,
    }
}

/// Whether the answers show that guarantee `i` holds at all returns before `j`.
pub open spec fn holds_before(
    f: &Function,
    e: EncodedV,
    own: Seq<TermV>,
    anns: Seq<AnnClause>,
    verdicts: Seq<SatResult>,
    i: int,
    j: int,
) -> bool {
    forall|k: int| 0 <= k < j ==> #[trigger] holds_at(f, e, own, anns, verdicts, i, k)
}

/// Which of the queries about guarantee `i` at the first `j` returns are skipped: those after
/// a return at which it is not shown to hold.
pub open spec fn skipped_returns(
    f: &Function,
    e: EncodedV,
    own: Seq<TermV>,
    anns: Seq<AnnClause>,
    verdicts: Seq<SatResult>,
    i: int,
    j: int,
) -> Seq<bool>
    decreases j,
{
    if j <= 0 {
        Seq::empty()
    } else {
        let before = skipped_returns(f, e, own, anns, verdicts, i, j - 1);
        if return_query(f, e, own, anns[i], ret_sites(f)[j - 1]) is Some {
            before.push(!holds_before(f, e, own, anns, verdicts, i, j - 1))
        } else {
            before
        }
    }
}

/// Which of the queries about the first `i` guarantees are skipped.
pub open spec fn skipped_clauses(
    f: &Function,
    e: EncodedV,
    own: Seq<TermV>,
    anns: Seq<AnnClause>,
    verdicts: Seq<SatResult>,
    i: int,
) -> Seq<bool>
    decreases i,
{
    if i <= 0 {
        Seq::empty()
    } else {
        skipped_clauses(f, e, own, anns, verdicts, i - 1) + skipped_returns(
            f,
            e,
            own,
            anns,
            verdicts,
            i - 1,
            ret_sites(f).len() as int,
        )
    }
}

/// Which of the queries about the annotated guarantees of `id` are skipped, given the answers
/// so far.
pub open spec fn verify_skipped(
    p: &Program,
    id: FuncId,
    e: Option<EncodedV>,
    own: Seq<TermV>,
    anns: Seq<AnnClause>,
    verdicts: Seq<SatResult>,
) -> Seq<bool> {
    if checkable(p, id, e) {
        skipped_clauses(
            &p.body(id).unwrap(),
            e.unwrap(),
            own,
            anns,
            verdicts,
            anns.len() as int,
        )
    } else {
        Seq::empty()
    }
}

/// The queries about the annotated guarantees of `id`.
pub open spec fn verify_asked(
    p: &Program,
    id: FuncId,
    e: Option<EncodedV>,
    own: Seq<TermV>,
    anns: Seq<AnnClause>,
) -> Seq<QueryV> {
    if checkable(p, id, e) {
        clause_queries(&p.body(id).unwrap(), e.unwrap(), own, anns, anns.len() as int)
    } else {
        Seq::empty()
    }
}

/// What is reported of the annotated guarantees of `id`: those that are not proved.
pub open spec fn verified(
    p: &Program,
    id: FuncId,
    e: Option<EncodedV>,
    own: Seq<TermV>,
    anns: Seq<AnnClause>,
    verdicts: Seq<SatResult>,
) -> Seq<FindingV> {
    if checkable(p, id, e) {
        unproven_upto(
            p,
            id,
            &p.body(id).unwrap(),
            e.unwrap(),
            own,
            anns,
            verdicts,
            anns.len() as int,
        )
    } else {
        all_unverified(p, id, anns)
    }
}

fn warn(p: &Program, id: FuncId, a: &AnnClause) -> (r: Finding)
    ensures
        r@ == unverified(p, id, *a),
{
    let mut message = "annotated ensures `".to_string();
    message.append(a.text.as_str());
    message.append("` not proven against the body; callers still assume it");
    let r = Finding {
        checker: UNVERIFIED_ANNOTATION.to_string(),
        tag: UNVERIFIED_ANNOTATION.to_string(),
        func: p.func_name(id).to_string(),
        pos: clone_pos(&a.pos),
        message,
        trace: Vec::new(),
        model: Vec::new(),
        severity: Severity::Warning,
    };
    assert(pairs_v(r.model@) =~= Seq::<(Seq<char>, Seq<char>)>::empty());
    assert(trace_v(r.trace@) =~= Seq::<TraceStepV>::empty());
    r
}

fn warn_all(p: &Program, id: FuncId, anns: &Vec<AnnClause>) -> (r: Vec<Finding>)
    ensures
        findings_v(r@) == all_unverified(p, id, anns@),
{
    let mut out: Vec<Finding> = Vec::new();
    let mut i: usize = 0;
    while i < anns.len()
        invariant
            i <= anns@.len(),
            out@.len() == i,
            forall|j: int| 0 <= j < i ==> (#[trigger] out@[j])@ == unverified(p, id, anns@[j]),
        decreases anns@.len() - i,
    {
        out.push(warn(p, id, &anns[i]));
        i += 1;
    }
    assert(findings_v(out@) =~= all_unverified(p, id, anns@));
    out
}

fn site_query(
    f: &Function,
    enc: &EncodedFunc,
    own: &Vec<Term>,
    params: &Vec<Option<Term>>,
    a: &AnnClause,
    s: Site,
) -> (r: Option<Query>)
    requires
        enc.wf(),
        f.has_site(s),
        f.op_at(s) is Return,
        opt_terms(params@) == values_at(enc@, f.params@),
    ensures
        match r {
            Some(q) => return_query(f, enc@, terms(own@), *a, s) == Some(q@),
            None => return_query(f, enc@, terms(own@), *a, s) is None,
        },
{
    match f.op(s) {
        Op::Return { vals } => {
            let results = value_terms(enc, vals);
            match bind_one(&a.clause, params, &results) {
                Some(v) => {
                    let mut extra = Term::dup_list(own);
                    let ghost vv = v@;
                    extra.push(v);
                    assert(terms(extra@) =~= terms(own@).push(vv));
                    Some(enc.reach_query(s.0, extra))
                },
                None => None,
            }
        },
        _ => None,
    }
}

/// The queries about annotated guarantees: one per guarantee and return.
pub fn verify_queries(
    p: &Program,
    id: FuncId,
    enc: Option<&EncodedFunc>,
    anns: &Vec<AnnClause>,
    own: &Vec<Term>,
) -> (r: Vec<Query>)
    requires
        enc matches Some(e) ==> e.wf(),
    ensures
        queries_v(r@) == verify_asked(
            p,
            id,
            (match enc {
                Some(e) => Some(e@),
                None => None,
            }),
            terms(own@),
            anns@,
        ),
{
    let mut out: Vec<Query> = Vec::new();
    assert(queries_v(out@) =~= Seq::<QueryV>::empty());
    let (f, enc) = match (p.func(id), enc) {
        (Some(f), Some(enc)) => (f, enc),
        _ => {
            return out;
        },
    };
    let n = match p.types.kind(f.sig) {
        Some(TypeKind::Signature { results, .. }) => results.len(),
        _ => {
            return out;
        },
    };
    let rets = return_sites(f);
    if !returns_fit(f, &rets, n) {
        return out;
    }
    let params = value_terms(enc, &f.params);
    let ghost ov = terms(own@);
    let mut i: usize = 0;
    while i < anns.len()
        invariant
            i <= anns@.len(),
            enc.wf(),
            ov == terms(own@),
            rets@ == ret_sites(f),
            opt_terms(params@) == values_at(enc@, f.params@),
            forall|j: int|
                0 <= j < rets@.len() ==> f.has_site(#[trigger] rets@[j]) && f.op_at(rets@[j]) is Return,
            queries_v(out@) == clause_queries(f, enc@, ov, anns@, i as int),
        decreases anns@.len() - i,
    {
        let ghost start = queries_v(out@);
        assert(start + Seq::<QueryV>::empty() =~= start);
        let mut j: usize = 0;
        while j < rets.len()
            invariant
                i < anns@.len(),
                j <= rets@.len(),
                enc.wf(),
                ov == terms(own@),
                rets@ == ret_sites(f),
                opt_terms(params@) == values_at(enc@, f.params@),
                forall|j: int|
                    0 <= j < rets@.len() ==> f.has_site(#[trigger] rets@[j]) && f.op_at(rets@[j])
                        is Return,
                queries_v(out@) == start + return_queries(f, enc@, ov, anns@[i as int], j as int),
            decreases rets@.len() - j,
        {
            let ghost before = out@;
            match site_query(f, enc, own, &params, &anns[i], rets[j]) {
                Some(q) => {
                    let ghost qv = q@;
                    out.push(q);
                    assert(queries_v(out@) =~= queries_v(before) + seq![qv]);
                },
                None => {
                    assert(queries_v(out@) =~= queries_v(before) + Seq::<QueryV>::empty());
                },
            }
            j += 1;
            assert(queries_v(out@) =~= start + return_queries(f, enc@, ov, anns@[i as int], j as int));
        }
        i += 1;
    }
    out
}

/// Which of the queries about annotated guarantees are skipped, given the answers so far: for
/// each guarantee returns are asked about in order, up to the first at which it is not shown to
/// hold.
pub fn skipped_queries(
    p: &Program,
    id: FuncId,
    enc: Option<&EncodedFunc>,
    anns: &Vec<AnnClause>,
    own: &Vec<Term>,
    verdicts: &Vec<SatResult>,
) -> (r: Vec<bool>)
    requires
        enc matches Some(e) ==> e.wf(),
    ensures
        r@ == verify_skipped(
            p,
            id,
            (match enc {
                Some(e) => Some(e@),
                None => None,
            }),
            terms(own@),
            anns@,
            verdicts@,
        ),
{
    let (f, enc) = match (p.func(id), enc) {
        (Some(f), Some(enc)) => (f, enc),
        _ => {
            return Vec::new();
        },
    };
    let n = match p.types.kind(f.sig) {
        Some(TypeKind::Signature { results, .. }) => results.len(),
        _ => {
            return Vec::new();
        },
    };
    let rets = return_sites(f);
    if !returns_fit(f, &rets, n) {
        return Vec::new();
    }
    let params = value_terms(enc, &f.params);
    let ghost ov = terms(own@);
    let mut out: Vec<bool> = Vec::new();
    let mut pos: usize = 0;
    let mut i: usize = 0;
    while i < anns.len()
        invariant
            i <= anns@.len(),
            enc.wf(),
            ov == terms(own@),
            rets@ == ret_sites(f),
            opt_terms(params@) == values_at(enc@, f.params@),
            forall|j: int|
                0 <= j < rets@.len() ==> f.has_site(#[trigger] rets@[j]) && f.op_at(rets@[j]) is Return,
            out@ == skipped_clauses(f, enc@, ov, anns@, verdicts@, i as int),
            pos == answer_place(verdicts@, clause_queries(f, enc@, ov, anns@, i as int).len() as int),
        decreases anns@.len() - i,
    {
        let mut all = true;
        let ghost start = out@;
        assert(start + Seq::<bool>::empty() =~= start);
        let mut j: usize = 0;
        while j < rets.len()
            invariant
                i < anns@.len(),
                j <= rets@.len(),
                enc.wf(),
                ov == terms(own@),
                rets@ == ret_sites(f),
                opt_terms(params@) == values_at(enc@, f.params@),
                forall|j: int|
                    0 <= j < rets@.len() ==> f.has_site(#[trigger] rets@[j]) && f.op_at(rets@[j])
                        is Return,
                all == holds_before(f, enc@, ov, anns@, verdicts@, i as int, j as int),
                out@ == start + skipped_returns(
                    f,
                    enc@,
                    ov,
                    anns@,
                    verdicts@,
                    i as int,
                    j as int,
                ),
                pos == answer_place(
                    verdicts@,
                    (clause_queries(f, enc@, ov, anns@, i as int).len() + return_queries(
                        f,
                        enc@,
                        ov,
                        anns@[i as int],
                        j as int,
                    ).len()) as int,
                ),
            decreases rets@.len() - j,
        {
            let ghost was = all;
            let here = match site_query(f, enc, own, &params, &anns[i], rets[j]) {
                Some(_) => {
                    let ghost marked = skipped_returns(
                        f,
                        enc@,
                        ov,
                        anns@,
                        verdicts@,
                        i as int,
                        j as int,
                    );
                    out.push(!all);
                    assert((start + marked).push(!all) =~= start + marked.push(!all));
                    let v = verdict(verdicts, pos) == SatResult::Unsat;
                    if pos < verdicts.len() {
                        pos += 1;
                    }
                    v
                },
                None => false,
            };
            assert(here == holds_at(f, enc@, ov, anns@, verdicts@, i as int, j as int));
            proof {
                let after = holds_before(f, enc@, ov, anns@, verdicts@, i as int, j + 1);
                if was && here {
                    assert(after);
                }
                if after {
                    assert(holds_at(f, enc@, ov, anns@, verdicts@, i as int, j as int));
                }
            }
            if !here {
                all = false;
            }
            j += 1;
        }
        i += 1;
    }
    out
}

/// Reports the annotated guarantees that the body is not shown to live up to. Each must be
/// unviolable at every return while the function's own requirements `own` hold. What cannot be
/// checked is reported too, because callers rely on it all the same.
pub fn verify_ensures(
    p: &Program,
    id: FuncId,
    enc: Option<&EncodedFunc>,
    anns: &Vec<AnnClause>,
    own: &Vec<Term>,
    verdicts: &Vec<SatResult>,
) -> (r: Vec<Finding>)
    requires
        enc matches Some(e) ==> e.wf(),
    ensures
        findings_v(r@) == verified(
            p,
            id,
            (match enc {
                Some(e) => Some(e@),
                None => None,
            }),
            terms(own@),
            anns@,
            verdicts@,
        ),
{
    let (f, enc) = match (p.func(id), enc) {
        (Some(f), Some(enc)) => (f, enc),
        _ => {
            return warn_all(p, id, anns);
        },
    };
    let n = match p.types.kind(f.sig) {
        Some(TypeKind::Signature { results, .. }) => results.len(),
        _ => {
            return warn_all(p, id, anns);
        },
    };
    let rets = return_sites(f);
    if !returns_fit(f, &rets, n) {
        return warn_all(p, id, anns);
    }
    let params = value_terms(enc, &f.params);
    let ghost ov = terms(own@);
    let mut out: Vec<Finding> = Vec::new();
    assert(findings_v(out@) =~= Seq::<FindingV>::empty());
    let mut pos: usize = 0;
    let mut i: usize = 0;
    while i < anns.len()
        invariant
            i <= anns@.len(),
            enc.wf(),
            ov == terms(own@),
            rets@ == ret_sites(f),
            opt_terms(params@) == values_at(enc@, f.params@),
            forall|j: int|
                0 <= j < rets@.len() ==> f.has_site(#[trigger] rets@[j]) && f.op_at(rets@[j]) is Return,
            findings_v(out@) == unproven_upto(p, id, f, enc@, ov, anns@, verdicts@, i as int),
            pos == answer_place(verdicts@, clause_queries(f, enc@, ov, anns@, i as int).len() as int),
        decreases anns@.len() - i,
    {
        let mut all = true;
        let mut j: usize = 0;
        while j < rets.len()
            invariant
                i < anns@.len(),
                j <= rets@.len(),
                enc.wf(),
                ov == terms(own@),
                rets@ == ret_sites(f),
                opt_terms(params@) == values_at(enc@, f.params@),
                forall|j: int|
                    0 <= j < rets@.len() ==> f.has_site(#[trigger] rets@[j]) && f.op_at(rets@[j])
                        is Return,
                all == forall|k: int|
                    0 <= k < j ==> #[trigger] holds_at(f, enc@, ov, anns@, verdicts@, i as int, k),
                pos == answer_place(
                    verdicts@,
                    (clause_queries(f, enc@, ov, anns@, i as int).len() + return_queries(
                        f,
                        enc@,
                        ov,
                        anns@[i as int],
                        j as int,
                    ).len()) as int,
                ),
            decreases rets@.len() - j,
        {
            let ghost was = all;
            let here = match site_query(f, enc, own, &params, &anns[i], rets[j]) {
                Some(_) => {
                    let v = verdict(verdicts, pos) == SatResult::Unsat;
                    if pos < verdicts.len() {
                        pos += 1;
                    }
                    v
                },
                None => false,
            };
            assert(here == holds_at(f, enc@, ov, anns@, verdicts@, i as int, j as int));
            if !here {
                all = false;
            }
            j += 1;
        }
        assert(all == proven(f, enc@, ov, anns@, verdicts@, i as int));
        if !all {
            let ghost before = out@;
            out.push(warn(p, id, &anns[i]));
            assert(findings_v(out@) =~= findings_v(before).push(unverified(p, id, anns@[i as int])));
        }
        i += 1;
    }
    out
}

/// A guarantee is only passed in silence if every query about it has the answer "unsatisfiable".
pub proof fn unproved_is_reported(
    p: &Program,
    id: FuncId,
    f: &Function,
    e: EncodedV,
    own: Seq<TermV>,
    anns: Seq<AnnClause>,
    verdicts: Seq<SatResult>,
    i: int,
    n: int,
)
    requires
        0 <= i < n <= anns.len(),
        !proven(f, e, own, anns, verdicts, i),
    ensures
        unproven_upto(p, id, f, e, own, anns, verdicts, n).contains(unverified(p, id, anns[i])),
    decreases n,
{
    let after = unproven_upto(p, id, f, e, own, anns, verdicts, n);
    let before = unproven_upto(p, id, f, e, own, anns, verdicts, n - 1);
    if i == n - 1 {
        assert(after[before.len() as int] == unverified(p, id, anns[i]));
    } else {
        unproved_is_reported(p, id, f, e, own, anns, verdicts, i, n - 1);
        let k = choose|k: int| 0 <= k < before.len() && before[k] == unverified(p, id, anns[i]);
        assert(after[k] == unverified(p, id, anns[i]));
    }
}

} // verus!
