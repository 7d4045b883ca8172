//! What is reported of a function: the obligations whose query is satisfiable, with a trace
//! and the values of the parameters.

use vstd::prelude::*;
use crate::annotations::Annotations;
use crate::answers::{answer, asked_texts, note, texts_of, verdicts_on, Answers};
use crate::checker::{
    findings_v, obligations_v, pairs_v, queries_v, trace_v, Checker, Finding, FindingV, Obligation,
    ObligationV, Severity, TraceStep, TraceStepV,
};
use crate::codec::views;
use crate::contracts::{
    contract_obligations, contracts_upto, skipped_queries, verified, verify_asked, verify_ensures,
    verify_queries, verify_skipped, CONTRACT,
};
use crate::encode::{encode_func, encode_func_with, encoding, encoding_with, EncodedFunc, EncodedV};
use crate::faults::{findings_fault, findings_fault_text};
use crate::fixpoint::{referents, AnswersV};
use crate::graph::adj;
use crate::ir::{clone_pos, opt_pos, Block, FuncId, Function, Instr, Pos, PosV, Program};
use crate::model::{
    guard_values, model_bindings, model_map, path_follows_true_guards, path_of, truths,
    violating_path,
};
use crate::order::{codes, lex_lt, listing};
use crate::query::{query_text, QueryV, SatResult};
use crate::shared::{clause_terms, preconditions_of};
use crate::sort::{closed_text, closed_text_order, sort_items, sorted, Rank};
use crate::summary::{SummaryTable, TableV};
use crate::term::{terms, Term};
use crate::text::{all_digits, chars_of, is_digit, text_before};

verus! {

// ---- The model ----

/// Whether a name is that of a parameter.
pub open spec fn is_param_key(s: Seq<char>) -> bool {
    s.len() > 1 && s[0] == 'p' && all_digits(s.skip(1))
}

/// Whether a name is that of a parameter. Other names are the encoder's own.
pub fn is_param_binding(name: &str) -> (r: bool)
    ensures
        r == is_param_key(name@),
{
    let cs = chars_of(name);
    if cs.len() < 2 || cs[0] != 'p' {
        return false;
    }
    let ghost rest = name@.skip(1);
    let mut i: usize = 1;
    while i < cs.len()
        invariant
            1 <= i <= cs@.len(),
            cs@ == name@,
            rest == name@.skip(1),
            forall|j: int| 0 <= j < i - 1 ==> is_digit(#[trigger] rest[j]),
        decreases cs@.len() - i,
    {
        let c = cs[i];
        assert(rest[i - 1] == c);
        if !('0' <= c && c <= '9') {
            return false;
        }
        i += 1;
    }
    true
}

/// Those of the first `n` bindings that are of parameters.
pub open spec fn params_upto(items: Seq<(Seq<char>, Seq<char>)>, n: nat) -> Seq<(Seq<char>, Seq<char>)>
    decreases n,
{
    if n == 0 {
        Seq::empty()
    } else {
        let before = params_upto(items, (n - 1) as nat);
        if is_param_key(items[n - 1].0) {
            before.push(items[n - 1])
        } else {
            before
        }
    }
}

/// The parameters in a model, in the order of their names.
pub open spec fn model_params(model: Seq<char>) -> Seq<(Seq<char>, Seq<char>)> {
    let items = listing::<String, Seq<char>>(model_map(model));
    params_upto(items, items.len())
}

fn param_bindings(model: &str) -> (r: Vec<(String, String)>)
    ensures
        pairs_v(r@) == model_params(model@),
{
    let all = model_bindings(model);
    let ghost items = all.items();
    proof {
        all.items_are_listing();
    }
    let mut out: Vec<(String, String)> = Vec::new();
    let mut i: usize = 0;
    let n = all.len();
    assert(pairs_v(out@) =~= Seq::<(Seq<char>, Seq<char>)>::empty());
    while i < n
        invariant
            i <= n,
            n == items.len(),
            items == all.items(),
            pairs_v(out@) == params_upto(items, i as nat),
        decreases n - i,
    {
        let k = all.key_at(i);
        if is_param_binding(k.as_str()) {
            let ghost before = out@;
            let v = all.value_at(i);
            out.push((k.clone(), v.clone()));
            assert(pairs_v(out@) =~= pairs_v(before).push(items[i as int]));
        }
        i += 1;
    }
    out
}

// ---- The trace ----

/// The first position in a block, from instruction `i` on.
pub open spec fn first_pos(instrs: Seq<Instr>, i: int) -> Option<PosV>
    decreases instrs.len() - i,
{
    if 0 <= i < instrs.len() {
        match instrs[i].pos {
            Some(p) => Some(p@),
            None => first_pos(instrs, i + 1),
        }
    } else {
        None
    }
}

fn block_pos(b: &Block) -> (r: Option<Pos>)
    ensures
        opt_pos(r) == first_pos(b.instrs@, 0),
{
    let mut i: usize = 0;
    while i < b.instrs.len()
        invariant
            i <= b.instrs@.len(),
            first_pos(b.instrs@, 0) == first_pos(b.instrs@, i as int),
        decreases b.instrs@.len() - i,
    {
        if b.instrs[i].pos.is_some() {
            return clone_pos(&b.instrs[i].pos);
        }
        i += 1;
    }
    None
}

/// A path as a trace.
pub open spec fn path_trace(f: &Function, path: Seq<u32>) -> Seq<TraceStepV> {
    Seq::new(
        path.len(),
        |i: int|
            TraceStepV { block: path[i], pos: first_pos(f.blocks@[path[i] as int].instrs@, 0) },
    )
}

/// The blocks that a violating execution passes, according to the model; none where the
/// function cannot be encoded.
pub open spec fn trace_of(p: &Program, f: FuncId, model: Seq<char>) -> Seq<TraceStepV> {
    match (p.body(f), encoding(p, f)) {
        (Some(func), Ok(e)) => path_trace(
            &func,
            path_of(func.blocks@.len(), e.dag, truths(model_map(model))),
        ),
        _ => Seq::empty(),
    }
}

/// The trace of a violating execution.
fn trace_for(p: &Program, f: FuncId, model: &str) -> (r: Vec<TraceStep>)
    ensures
        trace_v(r@) == trace_of(p, f, model@),
{
    let mut out: Vec<TraceStep> = Vec::new();
    assert(trace_v(out@) =~= Seq::<TraceStepV>::empty());
    let func = match p.func(f) {
        Some(func) => func,
        None => {
            return out;
        },
    };
    let enc = match encode_func(p, f) {
        Ok(enc) => enc,
        Err(_) => {
            return out;
        },
    };
    let guards = guard_values(model);
    let path = violating_path(func, &enc.dag_succs, &guards);
    proof {
        path_follows_true_guards(func.blocks@.len(), adj(enc.dag_succs@), guards@);
    }
    let ghost want = path_trace(func, path@);
    let mut i: usize = 0;
    while i < path.len()
        invariant
            i <= path@.len(),
            want == path_trace(func, path@),
            forall|j: int| 0 <= j < path@.len() ==> (#[trigger] path@[j]) < func.blocks@.len(),
            trace_v(out@) == want.take(i as int),
        decreases path@.len() - i,
    {
        let b = path[i];
        let ghost before = out@;
        let step = TraceStep { block: b, pos: block_pos(&func.blocks[b as usize]) };
        let ghost sv = step@;
        out.push(step);
        i += 1;
        assert(sv == want[i - 1]);
        assert(trace_v(out@) =~= trace_v(before).push(sv));
        assert(want.take(i as int) =~= want.take(i - 1).push(want[i - 1]));
    }
    assert(want.take(i as int) =~= want);
    out
}

// ---- Findings ----

/// What is reported of an obligation that is violated.
pub open spec fn finding_of(
    p: &Program,
    f: FuncId,
    checker: Seq<char>,
    ob: ObligationV,
    model: Option<Seq<char>>,
) -> FindingV {
    FindingV {
        checker,
        tag: ob.tag,
        func: p.name_of(f),
        pos: opt_pos(ob.pos),
        message: ob.message,
        trace: match model {
            Some(m) => trace_of(p, f, m),
            None => Seq::empty(),
        },
        model: match model {
            Some(m) => model_params(m),
            None => Seq::empty(),
        },
        severity: Severity::Error,
    }
}

/// What is reported of the first `n` obligations: those whose query is satisfiable.
pub open spec fn raised_upto(
    p: &Program,
    f: FuncId,
    checker: Seq<char>,
    obs: Seq<ObligationV>,
    m: AnswersV,
    n: nat,
) -> Seq<FindingV>
    decreases n,
{
    if n == 0 {
        Seq::empty()
    } else {
        let before = raised_upto(p, f, checker, obs, m, (n - 1) as nat);
        let o = answer(m, obs[n - 1].query);
        if o.result_of() == SatResult::Sat {
            before.push(finding_of(p, f, checker, obs[n - 1], o.model_of()))
        } else {
            before
        }
    }
}

/// The queries of obligations.
pub open spec fn obligation_queries(obs: Seq<ObligationV>) -> Seq<QueryV> {
    Seq::new(obs.len(), |i: int| obs[i].query)
}

fn raise(
    p: &Program,
    f: FuncId,
    checker: &str,
    obs: &Vec<Obligation>,
    answers: &Answers,
    asked: &mut Vec<String>,
    out: &mut Vec<Finding>,
)
    requires
        answers.wf(),
    ensures
        findings_v(final(out)@) == findings_v(old(out)@) + raised_upto(
            p,
            f,
            checker@,
            obligations_v(obs@),
            answers@,
            obs@.len(),
        ),
        views(final(asked)@) == views(old(asked)@) + texts_of(
            obligation_queries(obligations_v(obs@)),
        ),
{
    let ghost ov = obligations_v(obs@);
    let ghost texts = texts_of(obligation_queries(ov));
    let ghost a0 = views(asked@);
    let ghost o0 = findings_v(out@);
    let mut i: usize = 0;
    proof {
        assert(a0 + texts.take(0) =~= a0);
        assert(o0 + Seq::<FindingV>::empty() =~= o0);
    }
    while i < obs.len()
        invariant
            i <= obs@.len(),
            answers.wf(),
            ov == obligations_v(obs@),
            texts == texts_of(obligation_queries(ov)),
            views(asked@) == a0 + texts.take(i as int),
            findings_v(out@) == o0 + raised_upto(p, f, checker@, ov, answers@, i as nat),
        decreases obs@.len() - i,
    {
        let ob = &obs[i];
        assert(ov[i as int] == ob@);
        let got = answers.ask(&ob.query, asked);
        assert(texts[i as int] == query_text(ob.query@));
        assert(a0 + texts.take(i as int + 1) =~= (a0 + texts.take(i as int)).push(texts[i as int]));
        let hit = match got {
            Some(o) => o.result() == SatResult::Sat,
            None => false,
        };
        let ghost before = raised_upto(p, f, checker@, ov, answers@, i as nat);
        if hit {
            let model = match got {
                Some(o) => o.model(),
                None => None,
            };
            let (trace, bindings) = match model {
                Some(m) => (trace_for(p, f, m.as_str()), param_bindings(m.as_str())),
                None => {
                    let a: Vec<TraceStep> = Vec::new();
                    let b: Vec<(String, String)> = Vec::new();
                    assert(trace_v(a@) =~= Seq::<TraceStepV>::empty());
                    assert(pairs_v(b@) =~= Seq::<(Seq<char>, Seq<char>)>::empty());
                    (a, b)
                },
            };
            let x = Finding {
                checker: checker.to_string(),
                tag: ob.tag.clone(),
                func: p.func_name(f).to_string(),
                pos: clone_pos(&ob.pos),
                message: ob.message.clone(),
                trace,
                model: bindings,
                severity: Severity::Error,
            };
            let ghost xv = x@;
            let ghost prev = out@;
            out.push(x);
            proof {
                assert(findings_v(out@) =~= findings_v(prev).push(xv));
                assert(xv == finding_of(p, f, checker@, ob@, answer(answers@, ob.query@).model_of()));
                assert((o0 + before).push(xv) =~= o0 + before.push(xv));
            }
        }
        i += 1;
    }
    assert(texts.take(i as int) =~= texts);
}

/// What the first `n` checkers report of `f`.
pub open spec fn checkers_upto<C: Checker>(
    p: &Program,
    f: FuncId,
    t: TableV,
    cs: Seq<C>,
    m: AnswersV,
    n: nat,
) -> Seq<FindingV>
    decreases n,
{
    if n == 0 {
        Seq::empty()
    } else {
        let c = cs[n - 1];
        let obs = c.obligations_of(p, f, t);
        checkers_upto(p, f, t, cs, m, (n - 1) as nat) + raised_upto(
            p,
            f,
            c.name_of(),
            obs,
            m,
            obs.len(),
        )
    }
}

/// Whether one of the first `n` checkers fails to check `f`.
pub open spec fn checking_failed<C: Checker>(
    p: &Program,
    f: FuncId,
    t: TableV,
    cs: Seq<C>,
    n: nat,
) -> bool
    decreases n,
{
    n > 0 && (checking_failed(p, f, t, cs, (n - 1) as nat) || cs[n - 1].fails_checking(p, f, t))
}

/// What the first `n` checkers ask for it, up to the first that fails.
pub open spec fn checkers_asked<C: Checker>(
    p: &Program,
    f: FuncId,
    t: TableV,
    cs: Seq<C>,
    n: nat,
) -> Seq<Seq<char>>
    decreases n,
{
    if n == 0 {
        Seq::empty()
    } else {
        let before = checkers_asked(p, f, t, cs, (n - 1) as nat);
        if checking_failed(p, f, t, cs, n) {
            before
        } else {
            before + texts_of(obligation_queries(cs[n - 1].obligations_of(p, f, t)))
        }
    }
}

/// The encoding, where there is one.
pub open spec fn usable(p: &Program, f: FuncId, t: TableV) -> Option<EncodedV> {
    match (p.body(f), encoding_with(p, f, t)) {
        (Some(_), Ok(e)) => Some(e),
        _ => None,
    }
}

/// The calls of `f` that may violate an annotated requirement.
pub open spec fn call_contracts(p: &Program, f: FuncId, t: TableV, anns: &Annotations) -> Seq<
    ObligationV,
> {
    match (p.body(f), usable(p, f, t)) {
        (Some(func), Some(e)) => contracts_upto(
            p,
            &func,
            e,
            clause_terms(t.summary(f).requires_),
            anns,
            t,
            func.sites().len() as int,
        ),
        _ => Seq::empty(),
    }
}

/// The queries about the annotated guarantees of `f`.
pub open spec fn guarantees_asked(p: &Program, f: FuncId, t: TableV, anns: &Annotations) -> Seq<
    QueryV,
> {
    match anns.of(f) {
        Some(a) => verify_asked(
            p,
            f,
            usable(p, f, t),
            clause_terms(t.summary(f).requires_),
            a.ensures_@,
        ),
        None => Seq::empty(),
    }
}

/// What checking the annotated guarantees of `f` asks.
pub open spec fn guarantees_texts(
    p: &Program,
    f: FuncId,
    t: TableV,
    anns: &Annotations,
    m: AnswersV,
) -> Seq<Seq<char>> {
    match anns.of(f) {
        Some(a) => {
            let qs = guarantees_asked(p, f, t, anns);
            let skipped = verify_skipped(
                p,
                f,
                usable(p, f, t),
                clause_terms(t.summary(f).requires_),
                a.ensures_@,
                verdicts_on(m, qs),
            );
            asked_texts(qs, skipped, qs.len())
        },
        None => Seq::empty(),
    }
}

/// What is reported of the annotated guarantees of `f`.
pub open spec fn guarantees_reported(
    p: &Program,
    f: FuncId,
    t: TableV,
    anns: &Annotations,
    m: AnswersV,
) -> Seq<FindingV> {
    match anns.of(f) {
        Some(a) => verified(
            p,
            f,
            usable(p, f, t),
            clause_terms(t.summary(f).requires_),
            a.ensures_@,
            verdicts_on(m, guarantees_asked(p, f, t, anns)),
        ),
        None => Seq::empty(),
    }
}

/// Everything that is reported of `f`, before it is put in order.
pub open spec fn unsorted_findings<C: Checker>(
    p: &Program,
    f: FuncId,
    t: TableV,
    cs: Seq<C>,
    m: AnswersV,
    anns: &Annotations,
) -> Seq<FindingV> {
    let contracts = call_contracts(p, f, t, anns);
    checkers_upto(p, f, t, cs, m, cs.len()) + raised_upto(
        p,
        f,
        CONTRACT@,
        contracts,
        m,
        contracts.len(),
    ) + guarantees_reported(p, f, t, anns, m)
}

/// Everything that is reported of `f`, by position, then by message. Where a checker fails,
/// nothing is.
pub open spec fn function_findings<C: Checker>(
    p: &Program,
    f: FuncId,
    t: TableV,
    cs: Seq<C>,
    m: AnswersV,
    anns: &Annotations,
) -> Seq<FindingV> {
    if checking_failed(p, f, t, cs, cs.len()) {
        Seq::empty()
    } else {
        sorted::<Finding>(unsorted_findings(p, f, t, cs, m, anns))
    }
}

/// What it takes to find out.
pub open spec fn findings_asked<C: Checker>(
    p: &Program,
    f: FuncId,
    t: TableV,
    cs: Seq<C>,
    m: AnswersV,
    anns: &Annotations,
) -> Seq<Seq<char>> {
    let checkers = checkers_asked(p, f, t, cs, cs.len());
    if checking_failed(p, f, t, cs, cs.len()) {
        checkers
    } else {
        checkers + texts_of(obligation_queries(call_contracts(p, f, t, anns)))
            + guarantees_texts(p, f, t, anns, m)
    }
}

/// Why nothing can be reported of `f`: it has a body that cannot be encoded.
pub open spec fn function_diags(p: &Program, f: FuncId, t: TableV) -> Seq<Seq<char>> {
    match (p.body(f), encoding_with(p, f, t)) {
        (Some(_), Err(e)) => seq![e],
        _ => Seq::empty(),
    }
}

/// What is said of `f`: why nothing can be reported, and that findings were lost.
pub open spec fn findings_diags<C: Checker>(p: &Program, f: FuncId, t: TableV, cs: Seq<C>) -> Seq<
    Seq<char>,
> {
    if checking_failed(p, f, t, cs, cs.len()) {
        function_diags(p, f, t).push(findings_fault(p, f))
    } else {
        function_diags(p, f, t)
    }
}

proof fn lemma_checks_stopped<C: Checker>(
    p: &Program,
    f: FuncId,
    t: TableV,
    cs: Seq<C>,
    k: nat,
    n: nat,
)
    requires
        k <= n,
        checking_failed(p, f, t, cs, k),
    ensures
        checking_failed(p, f, t, cs, n),
        checkers_asked(p, f, t, cs, n) == checkers_asked(p, f, t, cs, k),
    decreases n,
{
    if k < n {
        lemma_checks_stopped(p, f, t, cs, k, (n - 1) as nat);
    }
}

/// The key by which findings are ordered: the position, those without one first, then the
/// message.
pub open spec fn finding_key(v: FindingV) -> Seq<int> {
    match v.pos {
        None => seq![0int] + codes(v.message),
        Some(p) => seq![1int] + (closed_text(p.file) + (seq![p.line as int, p.col as int]
            + codes(v.message))),
    }
}

impl Rank for Finding {
    open spec fn rank_of(v: FindingV) -> Seq<int> {
        finding_key(v)
    }

    fn ranks_before(&self, other: &Finding) -> (r: bool) {
        let ghost a = finding_key(self@);
        let ghost b = finding_key(other@);
        let ghost ma = codes(self.message@);
        let ghost mb = codes(other.message@);
        match (&self.pos, &other.pos) {
            (None, None) => {
                assert(a.drop_first() =~= ma);
                assert(b.drop_first() =~= mb);
                text_before(self.message.as_str(), other.message.as_str())
            },
            (None, Some(_)) => true,
            (Some(_), None) => false,
            (Some(p), Some(q)) => {
                proof {
                    let x = seq![p.line as int, p.col as int] + ma;
                    let y = seq![q.line as int, q.col as int] + mb;
                    assert(a.drop_first() =~= closed_text(p.file@) + x);
                    assert(b.drop_first() =~= closed_text(q.file@) + y);
                    closed_text_order(p.file@, x, q.file@, y);
                    assert(x.drop_first() =~= seq![p.col as int] + ma);
                    assert(y.drop_first() =~= seq![q.col as int] + mb);
                    assert(x.drop_first().drop_first() =~= ma);
                    assert(y.drop_first().drop_first() =~= mb);
                    reveal_with_fuel(lex_lt, 3);
                }
                if p.file != q.file {
                    text_before(p.file.as_str(), q.file.as_str())
                } else if p.line != q.line {
                    p.line < q.line
                } else if p.col != q.col {
                    p.col < q.col
                } else {
                    text_before(self.message.as_str(), other.message.as_str())
                }
            },
        }
    }
}

fn opt_encoding(p: &Program, f: FuncId, t: &SummaryTable, diags: &mut Vec<String>) -> (r: Option<EncodedFunc>)
    requires
        t.wf(),
    ensures
        views(final(diags)@) == views(old(diags)@) + function_diags(p, f, t@),
        match r {
            Some(e) => e.wf() && usable(p, f, t@) == Some(e@),
            None => usable(p, f, t@) is None,
        },
{
    let ghost before = views(diags@);
    if p.func(f).is_none() {
        assert(before + Seq::<Seq<char>>::empty() =~= before);
        return None;
    }
    match encode_func_with(p, f, t) {
        Ok(e) => {
            assert(before + Seq::<Seq<char>>::empty() =~= before);
            Some(e)
        },
        Err(e) => {
            let ghost ev = e@;
            let ghost dv = diags@;
            diags.push(e);
            assert(views(diags@) =~= views(dv) + seq![ev]);
            None
        },
    }
}

/// What the checkers report of `f`; nothing where one fails.
fn check_obligations<C: Checker>(
    p: &Program,
    f: FuncId,
    t: &SummaryTable,
    cs: &Vec<&C>,
    answers: &Answers,
    asked: &mut Vec<String>,
) -> (r: Option<Vec<Finding>>)
    requires
        t.wf(),
        answers.wf(),
    ensures
        r is None == checking_failed(p, f, t@, referents(cs@), cs@.len()),
        r matches Some(v) ==> findings_v(v@) == checkers_upto(
            p,
            f,
            t@,
            referents(cs@),
            answers@,
            cs@.len(),
        ),
        views(final(asked)@) == views(old(asked)@) + checkers_asked(
            p,
            f,
            t@,
            referents(cs@),
            cs@.len(),
        ),
{
    let ghost cv = referents(cs@);
    let ghost a0 = views(asked@);
    let mut out: Vec<Finding> = Vec::new();
    let mut i: usize = 0;
    proof {
        assert(findings_v(out@) =~= Seq::<FindingV>::empty());
        assert(a0 + Seq::<Seq<char>>::empty() =~= a0);
    }
    while i < cs.len()
        invariant
            i <= cs@.len(),
            cv == referents(cs@),
            t.wf(),
            answers.wf(),
            a0 == views(old(asked)@),
            !checking_failed(p, f, t@, cv, i as nat),
            findings_v(out@) == checkers_upto(p, f, t@, cv, answers@, i as nat),
            views(asked@) == a0 + checkers_asked(p, f, t@, cv, i as nat),
        decreases cs@.len() - i,
    {
        let c = cs[i];
        assert(cv[i as int] == *c);
        if c.checking_fails(p, f, t) {
            proof {
                lemma_checks_stopped(p, f, t@, cv, i as nat + 1, cv.len());
            }
            return None;
        }
        let obs = c.obligations(p, f, t);
        let ghost before = checkers_asked(p, f, t@, cv, i as nat);
        assert(obligations_v(obs@).len() == obs@.len());
        raise(p, f, c.name(), &obs, answers, asked, &mut out);
        assert(a0 + before + texts_of(obligation_queries(obligations_v(obs@))) =~= a0 + (before
            + texts_of(obligation_queries(obligations_v(obs@)))));
        i += 1;
    }
    Some(out)
}

fn check_calls(
    p: &Program,
    f: FuncId,
    t: &SummaryTable,
    enc: Option<&EncodedFunc>,
    own: &Vec<Term>,
    answers: &Answers,
    anns: &Annotations,
    asked: &mut Vec<String>,
    out: &mut Vec<Finding>,
)
    requires
        t.wf(),
        answers.wf(),
        terms(own@) == clause_terms(t@.summary(f).requires_),
        match enc {
            Some(e) => e.wf() && usable(p, f, t@) == Some(e@),
            None => usable(p, f, t@) is None,
        },
    ensures
        ({
            let obs = call_contracts(p, f, t@, anns);
            &&& findings_v(final(out)@) == findings_v(old(out)@) + raised_upto(
                p,
                f,
                CONTRACT@,
                obs,
                answers@,
                obs.len(),
            )
            &&& views(final(asked)@) == views(old(asked)@) + texts_of(obligation_queries(obs))
        }),
{
    let obs = match (p.func(f), enc) {
        (Some(func), Some(e)) => contract_obligations(p, func, e, own, anns, t),
        _ => {
            let none: Vec<Obligation> = Vec::new();
            assert(obligations_v(none@) =~= Seq::<ObligationV>::empty());
            none
        },
    };
    proof {
        assert(obligations_v(obs@) == call_contracts(p, f, t@, anns));
        assert(obligations_v(obs@).len() == obs@.len());
    }
    raise(p, f, CONTRACT, &obs, answers, asked, out);
}

fn check_guarantees(
    p: &Program,
    f: FuncId,
    t: &SummaryTable,
    enc: Option<&EncodedFunc>,
    own: &Vec<Term>,
    answers: &Answers,
    anns: &Annotations,
    asked: &mut Vec<String>,
) -> (r: Vec<Finding>)
    requires
        t.wf(),
        answers.wf(),
        terms(own@) == clause_terms(t@.summary(f).requires_),
        match enc {
            Some(e) => e.wf() && usable(p, f, t@) == Some(e@),
            None => usable(p, f, t@) is None,
        },
    ensures
        findings_v(r@) == guarantees_reported(p, f, t@, anns, answers@),
        views(final(asked)@) == views(old(asked)@) + guarantees_texts(p, f, t@, anns, answers@),
{
    match anns.get(f) {
        Some(a) => {
            let qs = verify_queries(p, f, enc, &a.ensures_, own);
            let vs = answers.verdicts(&qs);
            assert(queries_v(qs@).len() == qs@.len());
            note(&qs, &skipped_queries(p, f, enc, &a.ensures_, own, &vs), asked);
            verify_ensures(p, f, enc, &a.ensures_, own, &vs)
        },
        None => {
            let none: Vec<Finding> = Vec::new();
            proof {
                let a = guarantees_texts(p, f, t@, anns, answers@);
                assert(findings_v(none@) =~= Seq::<FindingV>::empty());
                assert(a =~= Seq::<Seq<char>>::empty());
                assert(views(asked@) + a =~= views(asked@));
            }
            none
        },
    }
}

/// What is reported of `f`, in order. Why nothing can be reported is added to `diags`, and so
/// is that a checker failed; what is asked is added to `asked`.
pub fn check_function<C: Checker>(
    p: &Program,
    f: FuncId,
    t: &SummaryTable,
    cs: &Vec<&C>,
    answers: &Answers,
    anns: &Annotations,
    asked: &mut Vec<String>,
    diags: &mut Vec<String>,
) -> (r: Vec<Finding>)
    requires
        t.wf(),
        answers.wf(),
    ensures
        findings_v(r@) == function_findings(p, f, t@, referents(cs@), answers@, anns),
        views(final(asked)@) == views(old(asked)@) + findings_asked(p, f, t@, referents(cs@), answers@, anns),
        views(final(diags)@) == views(old(diags)@) + findings_diags(p, f, t@, referents(cs@)),
{
    let ghost cv = referents(cs@);
    let ghost a0 = views(asked@);
    let ghost d0 = views(diags@);
    let enc = opt_encoding(p, f, t, diags);
    let own = preconditions_of(t, f);
    let mut out = match check_obligations(p, f, t, cs, answers, asked) {
        Some(v) => v,
        None => {
            let note = findings_fault_text(p, f);
            let ghost nv = note@;
            let ghost dv = diags@;
            diags.push(note);
            proof {
                let said = function_diags(p, f, t@);
                assert(views(diags@) =~= views(dv).push(nv));
                assert((d0 + said).push(nv) =~= d0 + said.push(nv));
            }
            let none: Vec<Finding> = Vec::new();
            assert(findings_v(none@) =~= Seq::<FindingV>::empty());
            return none;
        },
    };
    check_calls(p, f, t, enc.as_ref(), &own, answers, anns, asked, &mut out);
    let mut more = check_guarantees(p, f, t, enc.as_ref(), &own, answers, anns, asked);
    let ghost mv = more@;
    let ghost ov = out@;
    out.append(&mut more);
    proof {
        let a1 = checkers_asked(p, f, t@, cv, cv.len());
        let a2 = texts_of(obligation_queries(call_contracts(p, f, t@, anns)));
        let a3 = guarantees_texts(p, f, t@, anns, answers@);
        assert(views(asked@) == a0 + a1 + a2 + a3);
        assert(a0 + a1 + a2 + a3 =~= a0 + (a1 + a2 + a3));
        assert(findings_v(out@) =~= findings_v(ov) + findings_v(mv));
        assert(findings_v(out@) == unsorted_findings(p, f, t@, cv, answers@, anns));
        assert(views(out@) =~= findings_v(out@));
    }
    let r = sort_items(out);
    assert(views(r@) =~= findings_v(r@));
    r
}

// ---- Only what is confirmed is reported ----

proof fn lemma_raised(
    p: &Program,
    f: FuncId,
    checker: Seq<char>,
    obs: Seq<ObligationV>,
    m: AnswersV,
    n: nat,
)
    requires
        n <= obs.len(),
    ensures
        forall|k: int|
            0 <= k < raised_upto(p, f, checker, obs, m, n).len() ==> exists|i: int|
                0 <= i < n && answer(m, (#[trigger] obs[i]).query).result_of() == SatResult::Sat
                    && #[trigger] raised_upto(p, f, checker, obs, m, n)[k] == finding_of(
                    p,
                    f,
                    checker,
                    obs[i],
                    answer(m, obs[i].query).model_of(),
                ),
    decreases n,
{
    if n > 0 {
        let b = (n - 1) as nat;
        lemma_raised(p, f, checker, obs, m, b);
        let before = raised_upto(p, f, checker, obs, m, b);
        let after = raised_upto(p, f, checker, obs, m, n);
        assert forall|k: int| 0 <= k < after.len() implies exists|i: int|
            0 <= i < n && answer(m, (#[trigger] obs[i]).query).result_of() == SatResult::Sat
                && #[trigger] after[k] == finding_of(
                p,
                f,
                checker,
                obs[i],
                answer(m, obs[i].query).model_of(),
            ) by {
            if k < before.len() {
                assert(before[k] == after[k]);
                let i = choose|i: int|
                    0 <= i < b && answer(m, (#[trigger] obs[i]).query).result_of() == SatResult::Sat
                        && before[k] == finding_of(
                        p,
                        f,
                        checker,
                        obs[i],
                        answer(m, obs[i].query).model_of(),
                    );
                assert(obs[i] == obs[i]);
            } else {
                assert(obs[n - 1] == obs[n - 1]);
            }
        }
    }
}

/// An obligation is reported only if the solver found its query satisfiable: neither
/// "unsatisfiable" nor "unknown" ever raises a finding.
pub proof fn only_satisfiable_is_raised(
    p: &Program,
    f: FuncId,
    checker: Seq<char>,
    obs: Seq<ObligationV>,
    m: AnswersV,
    k: int,
)
    requires
        0 <= k < raised_upto(p, f, checker, obs, m, obs.len()).len(),
    ensures
        exists|i: int|
            0 <= i < obs.len() && answer(m, (#[trigger] obs[i]).query).result_of() == SatResult::Sat
                && raised_upto(p, f, checker, obs, m, obs.len())[k] == finding_of(
                p,
                f,
                checker,
                obs[i],
                answer(m, obs[i].query).model_of(),
            ),
{
    lemma_raised(p, f, checker, obs, m, obs.len());
}

/// Whether no question was answered "satisfiable".
pub open spec fn nothing_satisfiable(m: AnswersV) -> bool {
    forall|t: Seq<char>| #[trigger]
        m.contains_key(t) ==> m[t].result_of() != SatResult::Sat
}

proof fn lemma_none_raised(
    p: &Program,
    f: FuncId,
    checker: Seq<char>,
    obs: Seq<ObligationV>,
    m: AnswersV,
    n: nat,
)
    requires
        nothing_satisfiable(m),
    ensures
        raised_upto(p, f, checker, obs, m, n).len() == 0,
    decreases n,
{
    if n > 0 {
        lemma_none_raised(p, f, checker, obs, m, (n - 1) as nat);
        let q = obs[n - 1].query;
        if m.contains_key(query_text(q)) {
            assert(m[query_text(q)].result_of() != SatResult::Sat);
        }
    }
}

proof fn lemma_checkers_silent<C: Checker>(
    p: &Program,
    f: FuncId,
    t: TableV,
    cs: Seq<C>,
    m: AnswersV,
    n: nat,
)
    requires
        nothing_satisfiable(m),
    ensures
        checkers_upto(p, f, t, cs, m, n).len() == 0,
    decreases n,
{
    if n > 0 {
        lemma_checkers_silent(p, f, t, cs, m, (n - 1) as nat);
        let c = cs[n - 1];
        let obs = c.obligations_of(p, f, t);
        lemma_none_raised(p, f, c.name_of(), obs, m, obs.len());
    }
}

/// A solver that finds nothing satisfiable, because it proves everything or because it gives
/// up, never makes anything reported but guarantees that are not proved.
pub proof fn silent_solver_reports_no_error<C: Checker>(
    p: &Program,
    f: FuncId,
    t: TableV,
    cs: Seq<C>,
    m: AnswersV,
    anns: &Annotations,
)
    requires
        nothing_satisfiable(m),
    ensures
        unsorted_findings(p, f, t, cs, m, anns) == guarantees_reported(p, f, t, anns, m),
{
    lemma_checkers_silent(p, f, t, cs, m, cs.len());
    let contracts = call_contracts(p, f, t, anns);
    lemma_none_raised(p, f, CONTRACT@, contracts, m, contracts.len());
    assert(unsorted_findings(p, f, t, cs, m, anns) =~= guarantees_reported(p, f, t, anns, m));
}

} // verus!
