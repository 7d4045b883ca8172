//! The nil checker: dereferences of pointers that may be nil.

use vstd::prelude::*;
use crate::checker::{
    accept, accepted, answer_place, candidate_queries, candidates_v, list_queries, obligations_v,
    push_clause, pushed, queries_v, verdict, verdict_at, Candidate, CandidateV, Checker, Obligation,
    ObligationV,
};
use crate::encode::{encode_func_with, encoding_with, opt_seq, EncodedFunc, EncodedV};
use crate::ir::{
    clone_pos, same_text, ConstVal, FuncId, Function, Program, Site, TypeId, TypeKind, TypeTable,
    ValueId, ValueKind,
};
use crate::query::{Query, QueryV, SatResult};
use crate::rets::{
    arity_fits, has_returns, results_of_sig, ret_sites, return_sites, returned,
    returned_value, returns_fit,
};
use crate::shared::{
    assumed, call_result, call_result_of, call_site_obligations, calls_obligations,
    checked_deref_assumptions, clause_terms, deref_sites, derefs, dominators_of, idom_of,
    joined_terms, over_params, params_only, preconditions_of, propagate_requires, propagated_calls,
    Deref,
};
use crate::summary::{
    clauses, iface_name, iface_var_name, Clause, ClauseV, Formula, IfaceVar, Provenance, Summary,
    SummaryTable, SummaryV, TableV,
};
use crate::term::{mk_is_nil, opt_term, ptr_is_nil, t_not, terms, Sort, Term, TermV};
use crate::types::{sort_of, sort_of_type};

verus! {

/// Finds dereferences of nil pointers.
#[derive(Debug, Clone, Copy, PartialEq, Eq)]
pub struct NilChecker;

/// The encoding that the checker works on.
pub open spec fn nil_encoding(p: &Program, f: FuncId, t: TableV) -> Option<(Function, EncodedV)> {
    match (p.body(f), encoding_with(p, f, t)) {
        (Some(func), Ok(e)) => Some((func, e)),
        _ => None,
    }
}

// ---- Requirements ----

/// That the subject of `d` is not nil, where it is a matter of the parameters.
pub open spec fn deref_candidate(e: EncodedV, ds: Seq<Deref>, d: Deref) -> Option<CandidateV> {
    match e.value(d.subject) {
        Some(s) => match mk_is_nil(s) {
            Some(n) => if over_params(n) {
                Some(
                    CandidateV {
                        clause: ClauseV {
                            tag: "nil-deref"@,
                            term: t_not(n),
                            provenance: Provenance::Inferred,
                        },
                        query: e.reach(
                            d.block as int,
                            assumed(e, ds, d.block as int, d.instr as int).push(n),
                        ),
                    },
                )
            } else {
                None
            },
            None => None,
        },
        None => None,
    }
}

/// The candidates of the first `n` dereferences.
pub open spec fn deref_candidates(e: EncodedV, ds: Seq<Deref>, n: int) -> Seq<CandidateV>
    decreases n,
{
    if n <= 0 {
        Seq::empty()
    } else {
        deref_candidates(e, ds, n - 1) + opt_seq(deref_candidate(e, ds, ds[n - 1]))
    }
}

/// All candidates for the requirements of `f`: its own dereferences, then what its callees
/// require.
pub open spec fn nil_candidates(p: &Program, f: FuncId, t: TableV) -> Seq<CandidateV> {
    match nil_encoding(p, f, t) {
        Some((func, e)) => {
            let ds = derefs(p, &func);
            deref_candidates(e, ds, ds.len() as int) + propagated_calls(
                &func,
                e,
                "nil-deref"@,
                t,
                ds,
                func.sites().len() as int,
            )
        },
        None => Seq::empty(),
    }
}

fn own_candidates(enc: &EncodedFunc, ds: &Vec<Deref>, idom: &Vec<Option<usize>>) -> (r: Vec<Candidate>)
    requires
        enc.wf(),
        idom_of(idom@, enc@.dag),
    ensures
        candidates_v(r@) == deref_candidates(enc@, ds@, ds@.len() as int),
{
    let mut out: Vec<Candidate> = Vec::new();
    let ghost e = enc@;
    assert(candidates_v(out@) =~= Seq::<CandidateV>::empty());
    let mut i: usize = 0;
    while i < ds.len()
        invariant
            i <= ds@.len(),
            enc.wf(),
            e == enc@,
            idom_of(idom@, e.dag),
            candidates_v(out@) == deref_candidates(e, ds@, i as int),
        decreases ds@.len() - i,
    {
        let d = ds[i];
        let ghost before = out@;
        let ghost want = deref_candidate(e, ds@, d);
        let mut found: Option<Candidate> = None;
        if let Some(s) = enc.value_term(d.subject) {
            if let Some(n) = ptr_is_nil(s) {
                if params_only(&n) {
                    let mut extra = checked_deref_assumptions(ds, enc, idom, d.block, d.instr);
                    let ghost known = terms(extra@);
                    extra.push(n.dup());
                    assert(terms(extra@) =~= known.push(n@));
                    let query = enc.reach_query(d.block, extra);
                    if let Some(nonnil) = Term::not(n) {
                        found = Some(
                            Candidate {
                                clause: Clause {
                                    tag: "nil-deref".to_string(),
                                    formula: Formula { term: nonnil },
                                    provenance: Provenance::Inferred,
                                },
                                query,
                            },
                        );
                    }
                }
            }
        }
        match found {
            Some(c) => {
                assert(want == Some(c@));
                let ghost cv = c@;
                out.push(c);
                assert(candidates_v(out@) =~= candidates_v(before) + seq![cv]);
            },
            None => {
                assert(want is None);
                assert(candidates_v(out@) =~= candidates_v(before) + Seq::<CandidateV>::empty());
            },
        }
        i += 1;
    }
    out
}

fn all_candidates(p: &Program, f: FuncId, t: &SummaryTable) -> (r: Vec<Candidate>)
    requires
        t.wf(),
    ensures
        candidates_v(r@) == nil_candidates(p, f, t@),
{
    let none: Vec<Candidate> = Vec::new();
    assert(candidates_v(none@) =~= Seq::<CandidateV>::empty());
    let func = match p.func(f) {
        Some(func) => func,
        None => {
            return none;
        },
    };
    let enc = match encode_func_with(p, f, t) {
        Ok(enc) => enc,
        Err(_) => {
            return none;
        },
    };
    let ds = deref_sites(p, func);
    let idom = dominators_of(&enc);
    let mut out = own_candidates(&enc, &ds, &idom);
    propagate_requires(func, &enc, "nil-deref", t, &ds, &idom, &mut out);
    out
}

// ---- Guarantees ----

/// That result `i` is not nil.
pub open spec fn nonnil_result(i: u32) -> TermV {
    t_not(TermV::PtrIsNil(Box::new(TermV::Var(iface_name(IfaceVar::Result(i)), Sort::Ptr))))
}

/// The guarantee that result `i` is not nil.
pub open spec fn nonnil_clause(i: u32) -> ClauseV {
    ClauseV { tag: "nil-deref"@, term: nonnil_result(i), provenance: Provenance::Inferred }
}

/// The guarantee that results `e` and `i` are not both nil.
pub open spec fn correlation(e: u32, i: u32) -> ClauseV {
    ClauseV {
        tag: "nil-deref"@,
        term: TermV::Or(seq![nonnil_result(e), nonnil_result(i)]),
        provenance: Provenance::Inferred,
    }
}

fn result_not_nil(i: u32) -> (r: Option<Term>)
    ensures
        opt_term(r) == Some(nonnil_result(i)),
{
    let v = Term::var(iface_var_name(&IfaceVar::Result(i)).as_str(), Sort::Ptr);
    match ptr_is_nil(v) {
        Some(n) => Term::not(n),
        None => None,
    }
}

fn nil_clause(term: Term) -> (r: Clause)
    ensures
        r@ == (ClauseV { tag: "nil-deref"@, term: term@, provenance: Provenance::Inferred }),
{
    Clause {
        tag: "nil-deref".to_string(),
        formula: Formula { term },
        provenance: Provenance::Inferred,
    }
}

/// Whether `t` is the predeclared `error`: a type of that name over an interface.
pub open spec fn is_error(types: &TypeTable, t: TypeId) -> bool {
    match types.kind_of(t) {
        TypeKind::Named { name, underlying } => name@ == "error"@ && types.kind_of(underlying)
            is Interface,
        _ => false,
    }
}

fn is_error_type(types: &TypeTable, t: TypeId) -> (r: bool)
    ensures
        r == is_error(types, t),
{
    match types.kind(t) {
        Some(TypeKind::Named { name, underlying }) => {
            same_text(name.as_str(), "error") && (match types.kind(*underlying) {
                Some(TypeKind::Interface) => true,
                _ => false,
            })
        },
        _ => false,
    }
}

/// Whether result type `i` is modelled as a pointer.
pub open spec fn is_ptr_result(p: &Program, rs: Seq<TypeId>, i: int) -> bool {
    sort_of_type(&p.types, rs[i]) == Some(Sort::Ptr)
}

/// The query whether the return at `s` can return nil as result `i`.
pub open spec fn nil_return(f: &Function, e: EncodedV, s: Site, i: int) -> Option<QueryV> {
    match e.value(returned(f, s)[i]) {
        Some(t) => match mk_is_nil(t) {
            Some(n) => Some(e.reach(s.0 as int, seq![n])),
            None => None,
        },
        None => None,
    }
}

/// The queries about result `i` at the first `j` returns.
pub open spec fn nil_returns(f: &Function, e: EncodedV, i: int, j: int) -> Seq<QueryV>
    decreases j,
{
    if j <= 0 {
        Seq::empty()
    } else {
        nil_returns(f, e, i, j - 1) + opt_seq(nil_return(f, e, ret_sites(f)[j - 1], i))
    }
}

/// The queries about the first `i` results.
pub open spec fn nil_results(p: &Program, f: &Function, e: EncodedV, rs: Seq<TypeId>, i: int) -> Seq<QueryV>
    decreases i,
{
    if i <= 0 {
        Seq::empty()
    } else if is_ptr_result(p, rs, i - 1) {
        nil_results(p, f, e, rs, i - 1) + nil_returns(f, e, i - 1, ret_sites(f).len() as int)
    } else {
        nil_results(p, f, e, rs, i - 1)
    }
}

/// Whether the answers show that return `j` does not return nil as result `i`.
pub open spec fn never_nil(
    p: &Program,
    f: &Function,
    e: EncodedV,
    rs: Seq<TypeId>,
    verdicts: Seq<SatResult>,
    i: int,
    j: int,
) -> bool {
    nil_return(f, e, ret_sites(f)[j], i) is Some && verdict_at(
        verdicts,
        (nil_results(p, f, e, rs, i).len() + nil_returns(f, e, i, j).len()) as int,
    ) == SatResult::Unsat
}

/// Whether no return has nil as result `i`.
pub open spec fn all_never_nil(
    p: &Program,
    f: &Function,
    e: EncodedV,
    rs: Seq<TypeId>,
    verdicts: Seq<SatResult>,
    i: int,
) -> bool {
    forall|j: int| 0 <= j < ret_sites(f).len() ==> #[trigger] never_nil(p, f, e, rs, verdicts, i, j)
}

/// Whether `v` is the constant nil.
pub open spec fn const_nil(f: &Function, v: ValueId) -> bool {
    f.kind_of(v) matches ValueKind::Const(ConstVal::Nil)
}

/// Whether result `i` is not nil wherever the error result `x` is the constant nil. An error
/// that is not the constant nil counts as an error.
pub open spec fn correlated(
    p: &Program,
    f: &Function,
    e: EncodedV,
    rs: Seq<TypeId>,
    verdicts: Seq<SatResult>,
    x: int,
    i: int,
) -> bool {
    forall|j: int|
        0 <= j < ret_sites(f).len() && const_nil(f, returned(f, ret_sites(f)[j])[x]) ==> #[trigger] never_nil(
            p,
            f,
            e,
            rs,
            verdicts,
            i,
            j,
        )
}

/// `s` with the correlations of result `i` with the first `x` results.
pub open spec fn with_correlations(
    p: &Program,
    f: &Function,
    e: EncodedV,
    rs: Seq<TypeId>,
    verdicts: Seq<SatResult>,
    s: Seq<ClauseV>,
    i: int,
    x: int,
) -> Seq<ClauseV>
    decreases x,
{
    if x <= 0 {
        s
    } else {
        let before = with_correlations(p, f, e, rs, verdicts, s, i, x - 1);
        if is_error(&p.types, rs[x - 1]) && x - 1 != i && correlated(p, f, e, rs, verdicts, x - 1, i) {
            pushed(before, correlation((x - 1) as u32, i as u32))
        } else {
            before
        }
    }
}

/// What is guaranteed of the first `i` results: each pointer is never nil, or else never nil
/// together with an error result.
pub open spec fn guarantees(
    p: &Program,
    f: &Function,
    e: EncodedV,
    rs: Seq<TypeId>,
    verdicts: Seq<SatResult>,
    i: int,
) -> Seq<ClauseV>
    decreases i,
{
    if i <= 0 {
        Seq::empty()
    } else {
        let before = guarantees(p, f, e, rs, verdicts, i - 1);
        if !is_ptr_result(p, rs, i - 1) {
            before
        } else if all_never_nil(p, f, e, rs, verdicts, i - 1) {
            pushed(before, nonnil_clause((i - 1) as u32))
        } else {
            with_correlations(p, f, e, rs, verdicts, before, i - 1, rs.len() as int)
        }
    }
}

/// Whether result `i` is shown not to be nil at all returns before `j`.
pub open spec fn never_nil_before(
    p: &Program,
    f: &Function,
    e: EncodedV,
    rs: Seq<TypeId>,
    verdicts: Seq<SatResult>,
    i: int,
    j: int,
) -> bool {
    forall|k: int| 0 <= k < j ==> #[trigger] never_nil(p, f, e, rs, verdicts, i, k)
}

/// Whether return `j` matters for the correlation of result `i` with the error result `x`: the
/// error is the constant nil there, and no such return before it stands against it.
pub open spec fn correlates_at(
    p: &Program,
    f: &Function,
    e: EncodedV,
    rs: Seq<TypeId>,
    verdicts: Seq<SatResult>,
    x: int,
    i: int,
    j: int,
) -> bool {
    &&& is_error(&p.types, rs[x])
    &&& x != i
    &&& const_nil(f, returned(f, ret_sites(f)[j])[x])
    &&& forall|k: int|
        0 <= k < j && const_nil(f, returned(f, ret_sites(f)[k])[x]) ==> #[trigger] never_nil(
            p,
            f,
            e,
            rs,
            verdicts,
            i,
            k,
        )
}

/// Whether return `j` is asked about for result `i`: returns are gone through in order, first
/// for the result alone and then for each error result, up to the first that can be nil.
pub open spec fn looked_at(
    p: &Program,
    f: &Function,
    e: EncodedV,
    rs: Seq<TypeId>,
    verdicts: Seq<SatResult>,
    i: int,
    j: int,
) -> bool {
    never_nil_before(p, f, e, rs, verdicts, i, j) || exists|x: int|
        0 <= x < rs.len() && #[trigger] correlates_at(p, f, e, rs, verdicts, x, i, j)
}

/// Which of the queries about result `i` at the first `j` returns are skipped.
pub open spec fn skipped_returns(
    p: &Program,
    f: &Function,
    e: EncodedV,
    rs: Seq<TypeId>,
    verdicts: Seq<SatResult>,
    i: int,
    j: int,
) -> Seq<bool>
    decreases j,
{
    if j <= 0 {
        Seq::empty()
    } else {
        let before = skipped_returns(p, f, e, rs, verdicts, i, j - 1);
        if nil_return(f, e, ret_sites(f)[j - 1], i) is Some {
            before.push(!looked_at(p, f, e, rs, verdicts, i, j - 1))
        } else {
            before
        }
    }
}

/// Which of the queries about the first `i` results are skipped.
pub open spec fn skipped_results(
    p: &Program,
    f: &Function,
    e: EncodedV,
    rs: Seq<TypeId>,
    verdicts: Seq<SatResult>,
    i: int,
) -> Seq<bool>
    decreases i,
{
    if i <= 0 {
        Seq::empty()
    } else if is_ptr_result(p, rs, i - 1) {
        skipped_results(p, f, e, rs, verdicts, i - 1) + skipped_returns(
            p,
            f,
            e,
            rs,
            verdicts,
            i - 1,
            ret_sites(f).len() as int,
        )
    } else {
        skipped_results(p, f, e, rs, verdicts, i - 1)
    }
}

/// Which of the queries about guarantees are skipped.
pub open spec fn nil_ensures_skipped(
    p: &Program,
    f: FuncId,
    t: TableV,
    verdicts: Seq<SatResult>,
) -> Seq<bool> {
    match nil_encoding(p, f, t) {
        Some((func, e)) => if has_returns(p, &func) {
            let rs = results_of_sig(p, &func).unwrap();
            skipped_results(p, &func, e, rs, verdicts, rs.len() as int)
        } else {
            Seq::empty()
        },
        None => Seq::empty(),
    }
}

/// The queries about guarantees.
pub open spec fn nil_ensures_asked(p: &Program, f: FuncId, t: TableV) -> Seq<QueryV> {
    match nil_encoding(p, f, t) {
        Some((func, e)) => if has_returns(p, &func) {
            let rs = results_of_sig(p, &func).unwrap();
            nil_results(p, &func, e, rs, rs.len() as int)
        } else {
            Seq::empty()
        },
        None => Seq::empty(),
    }
}

/// What `f` guarantees, given the answers.
pub open spec fn nil_ensures(p: &Program, f: FuncId, t: TableV, verdicts: Seq<SatResult>) -> Seq<
    ClauseV,
> {
    match nil_encoding(p, f, t) {
        Some((func, e)) => if has_returns(p, &func) {
            let rs = results_of_sig(p, &func).unwrap();
            guarantees(p, &func, e, rs, verdicts, rs.len() as int)
        } else {
            Seq::empty()
        },
        None => Seq::empty(),
    }
}

fn nil_return_query(f: &Function, enc: &EncodedFunc, s: Site, i: usize) -> (r: Option<Query>)
    requires
        enc.wf(),
        f.has_site(s),
        f.op_at(s) is Return,
        i < returned(f, s).len(),
    ensures
        match r {
            Some(q) => nil_return(f, enc@, s, i as int) == Some(q@),
            None => nil_return(f, enc@, s, i as int) is None,
        },
{
    match enc.value_term(returned_value(f, s, i)) {
        Some(t) => match ptr_is_nil(t) {
            Some(n) => {
                let ghost nv = n@;
                let mut extra: Vec<Term> = Vec::new();
                extra.push(n);
                assert(terms(extra@) =~= seq![nv]);
                Some(enc.reach_query(s.0, extra))
            },
            None => None,
        },
        None => None,
    }
}

fn result_queries(p: &Program, f: &Function, enc: &EncodedFunc, rs: &Vec<TypeId>, rets: &Vec<Site>) -> (r: Vec<
    Query,
>)
    requires
        enc.wf(),
        rets@ == ret_sites(f),
        arity_fits(f, rs@.len()),
        forall|j: int|
            0 <= j < rets@.len() ==> f.has_site(#[trigger] rets@[j]) && f.op_at(rets@[j]) is Return,
    ensures
        queries_v(r@) == nil_results(p, f, enc@, rs@, rs@.len() as int),
{
    let mut out: Vec<Query> = Vec::new();
    assert(queries_v(out@) =~= Seq::<QueryV>::empty());
    let mut i: usize = 0;
    while i < rs.len()
        invariant
            i <= rs@.len(),
            enc.wf(),
            rets@ == ret_sites(f),
            arity_fits(f, rs@.len()),
            forall|j: int|
                0 <= j < rets@.len() ==> f.has_site(#[trigger] rets@[j]) && f.op_at(rets@[j]) is Return,
            queries_v(out@) == nil_results(p, f, enc@, rs@, i as int),
        decreases rs@.len() - i,
    {
        if sort_of(&p.types, rs[i]) == Some(Sort::Ptr) {
            let ghost start = queries_v(out@);
            assert(start + Seq::<QueryV>::empty() =~= start);
            let mut j: usize = 0;
            while j < rets.len()
                invariant
                    i < rs@.len(),
                    j <= rets@.len(),
                    enc.wf(),
                    rets@ == ret_sites(f),
                    arity_fits(f, rs@.len()),
                    forall|j: int|
                        0 <= j < rets@.len() ==> f.has_site(#[trigger] rets@[j]) && f.op_at(rets@[j])
                            is Return,
                    queries_v(out@) == start + nil_returns(f, enc@, i as int, j as int),
                decreases rets@.len() - j,
            {
                assert(returned(f, ret_sites(f)[j as int]).len() == rs@.len());
                let ghost before = out@;
                match nil_return_query(f, enc, rets[j], i) {
                    Some(q) => {
                        let ghost qv = q@;
                        out.push(q);
                        assert(queries_v(out@) =~= queries_v(before) + seq![qv]);
                    },
                    None => {
                        assert(queries_v(out@) =~= queries_v(before) + Seq::<QueryV>::empty());
                    },
                }
                j += 1;
                assert(queries_v(out@) =~= start + nil_returns(f, enc@, i as int, j as int));
            }
        }
        i += 1;
    }
    out
}

/// Which returns are shown not to return nil as result `i`.
fn never_nil_flags(
    p: &Program,
    f: &Function,
    enc: &EncodedFunc,
    rs: &Vec<TypeId>,
    rets: &Vec<Site>,
    verdicts: &Vec<SatResult>,
    i: usize,
    start: usize,
) -> (r: (Vec<bool>, usize))
    requires
        enc.wf(),
        rets@ == ret_sites(f),
        i < rs@.len(),
        arity_fits(f, rs@.len()),
        start == answer_place(verdicts@, nil_results(p, f, enc@, rs@, i as int).len() as int),
        forall|j: int|
            0 <= j < rets@.len() ==> f.has_site(#[trigger] rets@[j]) && f.op_at(rets@[j]) is Return,
    ensures
        r.0@.len() == rets@.len(),
        forall|j: int|
            0 <= j < rets@.len() ==> #[trigger] r.0@[j] == never_nil(
                p,
                f,
                enc@,
                rs@,
                verdicts@,
                i as int,
                j,
            ),
        r.1 == answer_place(
            verdicts@,
            (nil_results(p, f, enc@, rs@, i as int).len() + nil_returns(
                f,
                enc@,
                i as int,
                rets@.len() as int,
            ).len()) as int,
        ),
{
    let mut flags: Vec<bool> = Vec::new();
    let mut pos = start;
    let mut j: usize = 0;
    while j < rets.len()
        invariant
            j <= rets@.len(),
            i < rs@.len(),
            enc.wf(),
            rets@ == ret_sites(f),
            arity_fits(f, rs@.len()),
            forall|j: int|
                0 <= j < rets@.len() ==> f.has_site(#[trigger] rets@[j]) && f.op_at(rets@[j]) is Return,
            flags@.len() == j,
            forall|k: int|
                0 <= k < j ==> #[trigger] flags@[k] == never_nil(
                    p,
                    f,
                    enc@,
                    rs@,
                    verdicts@,
                    i as int,
                    k,
                ),
            pos == answer_place(
                verdicts@,
                (nil_results(p, f, enc@, rs@, i as int).len() + nil_returns(
                    f,
                    enc@,
                    i as int,
                    j as int,
                ).len()) as int,
            ),
        decreases rets@.len() - j,
    {
        assert(returned(f, ret_sites(f)[j as int]).len() == rs@.len());
        match nil_return_query(f, enc, rets[j], i) {
            Some(_) => {
                flags.push(verdict(verdicts, pos) == SatResult::Unsat);
                if pos < verdicts.len() {
                    pos += 1;
                }
            },
            None => {
                flags.push(false);
            },
        }
        j += 1;
    }
    (flags, pos)
}

fn all_true(v: &Vec<bool>) -> (r: bool)
    ensures
        r == forall|j: int| 0 <= j < v@.len() ==> #[trigger] v@[j],
{
    let mut j: usize = 0;
    while j < v.len()
        invariant
            j <= v@.len(),
            forall|k: int| 0 <= k < j ==> #[trigger] v@[k],
        decreases v@.len() - j,
    {
        if !v[j] {
            return false;
        }
        j += 1;
    }
    true
}

fn is_const_nil(f: &Function, v: ValueId) -> (r: bool)
    ensures
        r == const_nil(f, v),
{
    match f.value_kind(v) {
        Some(ValueKind::Const(ConstVal::Nil)) => true,
        _ => false,
    }
}

fn nil_together(f: &Function, rets: &Vec<Site>, flags: &Vec<bool>, x: usize, Ghost(n): Ghost<nat>) -> (r: bool)
    requires
        rets@ == ret_sites(f),
        flags@.len() == rets@.len(),
        x < n,
        arity_fits(f, n),
        forall|j: int|
            0 <= j < rets@.len() ==> f.has_site(#[trigger] rets@[j]) && f.op_at(rets@[j]) is Return,
    ensures
        r == forall|j: int|
            0 <= j < rets@.len() && const_nil(f, returned(f, ret_sites(f)[j])[x as int])
                ==> #[trigger] flags@[j],
{
    let mut j: usize = 0;
    while j < rets.len()
        invariant
            j <= rets@.len(),
            rets@ == ret_sites(f),
            flags@.len() == rets@.len(),
            x < n,
            arity_fits(f, n),
            forall|j: int|
                0 <= j < rets@.len() ==> f.has_site(#[trigger] rets@[j]) && f.op_at(rets@[j]) is Return,
            forall|k: int|
                0 <= k < j && const_nil(f, returned(f, ret_sites(f)[k])[x as int]) ==> #[trigger] flags@[k],
        decreases rets@.len() - j,
    {
        assert(returned(f, ret_sites(f)[j as int]).len() == n);
        if is_const_nil(f, returned_value(f, rets[j], x)) && !flags[j] {
            return false;
        }
        j += 1;
    }
    true
}

/// Whether return `j` matters for the correlation with the error result `x`.
fn correlates_here(
    p: &Program,
    f: &Function,
    rs: &Vec<TypeId>,
    rets: &Vec<Site>,
    flags: &Vec<bool>,
    x: usize,
    i: usize,
    j: usize,
    Ghost(e): Ghost<EncodedV>,
    Ghost(verdicts): Ghost<Seq<SatResult>>,
) -> (r: bool)
    requires
        rets@ == ret_sites(f),
        flags@.len() == rets@.len(),
        x < rs@.len(),
        i < rs@.len(),
        j < rets@.len(),
        arity_fits(f, rs@.len()),
        forall|k: int|
            0 <= k < rets@.len() ==> f.has_site(#[trigger] rets@[k]) && f.op_at(rets@[k]) is Return,
        forall|k: int|
            0 <= k < rets@.len() ==> #[trigger] flags@[k] == never_nil(
                p,
                f,
                e,
                rs@,
                verdicts,
                i as int,
                k,
            ),
    ensures
        r == correlates_at(p, f, e, rs@, verdicts, x as int, i as int, j as int),
{
    assert(returned(f, ret_sites(f)[j as int]).len() == rs@.len());
    if x == i || !is_error_type(&p.types, rs[x]) || !is_const_nil(
        f,
        returned_value(f, rets[j], x),
    ) {
        return false;
    }
    let mut k: usize = 0;
    while k < j
        invariant
            k <= j < rets@.len(),
            x < rs@.len(),
            rets@ == ret_sites(f),
            flags@.len() == rets@.len(),
            arity_fits(f, rs@.len()),
            forall|k: int|
                0 <= k < rets@.len() ==> f.has_site(#[trigger] rets@[k]) && f.op_at(rets@[k])
                    is Return,
            forall|k: int|
                0 <= k < rets@.len() ==> #[trigger] flags@[k] == never_nil(
                    p,
                    f,
                    e,
                    rs@,
                    verdicts,
                    i as int,
                    k,
                ),
            forall|b: int|
                0 <= b < k && const_nil(f, returned(f, ret_sites(f)[b])[x as int])
                    ==> #[trigger] never_nil(p, f, e, rs@, verdicts, i as int, b),
        decreases j - k,
    {
        assert(returned(f, ret_sites(f)[k as int]).len() == rs@.len());
        if is_const_nil(f, returned_value(f, rets[k], x)) && !flags[k] {
            assert(!never_nil(p, f, e, rs@, verdicts, i as int, k as int));
            return false;
        }
        assert(flags@[k as int] == never_nil(p, f, e, rs@, verdicts, i as int, k as int));
        k += 1;
    }
    true
}

/// Whether return `j` is asked about for result `i`, given that `before` tells whether the
/// result is shown not to be nil at all returns before.
fn is_looked_at(
    p: &Program,
    f: &Function,
    rs: &Vec<TypeId>,
    rets: &Vec<Site>,
    flags: &Vec<bool>,
    before: bool,
    i: usize,
    j: usize,
    Ghost(e): Ghost<EncodedV>,
    Ghost(verdicts): Ghost<Seq<SatResult>>,
) -> (r: bool)
    requires
        rets@ == ret_sites(f),
        flags@.len() == rets@.len(),
        i < rs@.len(),
        j < rets@.len(),
        arity_fits(f, rs@.len()),
        before == never_nil_before(p, f, e, rs@, verdicts, i as int, j as int),
        forall|k: int|
            0 <= k < rets@.len() ==> f.has_site(#[trigger] rets@[k]) && f.op_at(rets@[k]) is Return,
        forall|k: int|
            0 <= k < rets@.len() ==> #[trigger] flags@[k] == never_nil(
                p,
                f,
                e,
                rs@,
                verdicts,
                i as int,
                k,
            ),
    ensures
        r == looked_at(p, f, e, rs@, verdicts, i as int, j as int),
{
    if before {
        return true;
    }
    let mut x: usize = 0;
    while x < rs.len()
        invariant
            x <= rs@.len(),
            rets@ == ret_sites(f),
            flags@.len() == rets@.len(),
            i < rs@.len(),
            j < rets@.len(),
            arity_fits(f, rs@.len()),
            forall|k: int|
                0 <= k < rets@.len() ==> f.has_site(#[trigger] rets@[k]) && f.op_at(rets@[k])
                    is Return,
            forall|k: int|
                0 <= k < rets@.len() ==> #[trigger] flags@[k] == never_nil(
                    p,
                    f,
                    e,
                    rs@,
                    verdicts,
                    i as int,
                    k,
                ),
            forall|y: int|
                0 <= y < x ==> !#[trigger] correlates_at(
                    p,
                    f,
                    e,
                    rs@,
                    verdicts,
                    y,
                    i as int,
                    j as int,
                ),
        decreases rs@.len() - x,
    {
        if correlates_here(p, f, rs, rets, flags, x, i, j, Ghost(e), Ghost(verdicts)) {
            return true;
        }
        x += 1;
    }
    false
}

/// Marks the queries about result `i` that are skipped.
fn mark_returns(
    p: &Program,
    f: &Function,
    enc: &EncodedFunc,
    rs: &Vec<TypeId>,
    rets: &Vec<Site>,
    flags: &Vec<bool>,
    i: usize,
    out: &mut Vec<bool>,
    Ghost(verdicts): Ghost<Seq<SatResult>>,
)
    requires
        enc.wf(),
        rets@ == ret_sites(f),
        flags@.len() == rets@.len(),
        i < rs@.len(),
        arity_fits(f, rs@.len()),
        forall|k: int|
            0 <= k < rets@.len() ==> f.has_site(#[trigger] rets@[k]) && f.op_at(rets@[k]) is Return,
        forall|k: int|
            0 <= k < rets@.len() ==> #[trigger] flags@[k] == never_nil(
                p,
                f,
                enc@,
                rs@,
                verdicts,
                i as int,
                k,
            ),
    ensures
        final(out)@ == old(out)@ + skipped_returns(
            p,
            f,
            enc@,
            rs@,
            verdicts,
            i as int,
            rets@.len() as int,
        ),
{
    let ghost start = out@;
    let mut before = true;
    let mut j: usize = 0;
    assert(start + Seq::<bool>::empty() =~= start);
    while j < rets.len()
        invariant
            j <= rets@.len(),
            enc.wf(),
            rets@ == ret_sites(f),
            flags@.len() == rets@.len(),
            i < rs@.len(),
            arity_fits(f, rs@.len()),
            forall|k: int|
                0 <= k < rets@.len() ==> f.has_site(#[trigger] rets@[k]) && f.op_at(rets@[k])
                    is Return,
            forall|k: int|
                0 <= k < rets@.len() ==> #[trigger] flags@[k] == never_nil(
                    p,
                    f,
                    enc@,
                    rs@,
                    verdicts,
                    i as int,
                    k,
                ),
            before == never_nil_before(p, f, enc@, rs@, verdicts, i as int, j as int),
            out@ == start + skipped_returns(p, f, enc@, rs@, verdicts, i as int, j as int),
        decreases rets@.len() - j,
    {
        assert(returned(f, ret_sites(f)[j as int]).len() == rs@.len());
        if nil_return_query(f, enc, rets[j], i).is_some() {
            let looked = is_looked_at(
                p,
                f,
                rs,
                rets,
                flags,
                before,
                i,
                j,
                Ghost(enc@),
                Ghost(verdicts),
            );
            let ghost marked = skipped_returns(p, f, enc@, rs@, verdicts, i as int, j as int);
            out.push(!looked);
            assert((start + marked).push(!looked) =~= start + marked.push(!looked));
        }
        proof {
            let here = never_nil(p, f, enc@, rs@, verdicts, i as int, j as int);
            assert(flags@[j as int] == here);
            let after = never_nil_before(p, f, enc@, rs@, verdicts, i as int, j + 1);
            if before && here {
                assert(after);
            }
            if after {
                assert(here);
            }
        }
        before = before && flags[j];
        j += 1;
    }
}

/// Which of the queries about the results are skipped.
fn mark_results(
    p: &Program,
    f: &Function,
    enc: &EncodedFunc,
    rs: &Vec<TypeId>,
    rets: &Vec<Site>,
    verdicts: &Vec<SatResult>,
) -> (r: Vec<bool>)
    requires
        enc.wf(),
        rets@ == ret_sites(f),
        arity_fits(f, rs@.len()),
        forall|k: int|
            0 <= k < rets@.len() ==> f.has_site(#[trigger] rets@[k]) && f.op_at(rets@[k]) is Return,
    ensures
        r@ == skipped_results(p, f, enc@, rs@, verdicts@, rs@.len() as int),
{
    let mut out: Vec<bool> = Vec::new();
    let mut pos: usize = 0;
    let mut i: usize = 0;
    while i < rs.len()
        invariant
            i <= rs@.len(),
            enc.wf(),
            rets@ == ret_sites(f),
            arity_fits(f, rs@.len()),
            forall|k: int|
                0 <= k < rets@.len() ==> f.has_site(#[trigger] rets@[k]) && f.op_at(rets@[k])
                    is Return,
            out@ == skipped_results(p, f, enc@, rs@, verdicts@, i as int),
            pos == answer_place(verdicts@, nil_results(p, f, enc@, rs@, i as int).len() as int),
        decreases rs@.len() - i,
    {
        if sort_of(&p.types, rs[i]) == Some(Sort::Ptr) {
            let (flags, next) = never_nil_flags(p, f, enc, rs, rets, verdicts, i, pos);
            mark_returns(p, f, enc, rs, rets, &flags, i, &mut out, Ghost(verdicts@));
            pos = next;
        }
        i += 1;
    }
    out
}

fn add_correlations(
    p: &Program,
    f: &Function,
    enc: &EncodedFunc,
    rs: &Vec<TypeId>,
    rets: &Vec<Site>,
    verdicts: &Vec<SatResult>,
    flags: &Vec<bool>,
    i: usize,
    out: &mut Vec<Clause>,
)
    requires
        rets@ == ret_sites(f),
        i < rs@.len(),
        arity_fits(f, rs@.len()),
        flags@.len() == rets@.len(),
        forall|j: int|
            0 <= j < rets@.len() ==> f.has_site(#[trigger] rets@[j]) && f.op_at(rets@[j]) is Return,
        forall|j: int|
            0 <= j < rets@.len() ==> #[trigger] flags@[j] == never_nil(
                p,
                f,
                enc@,
                rs@,
                verdicts@,
                i as int,
                j,
            ),
    ensures
        clauses(final(out)@) == with_correlations(
            p,
            f,
            enc@,
            rs@,
            verdicts@,
            clauses(old(out)@),
            i as int,
            rs@.len() as int,
        ),
{
    let ghost start = clauses(out@);
    let mut x: usize = 0;
    while x < rs.len()
        invariant
            x <= rs@.len(),
            rets@ == ret_sites(f),
            i < rs@.len(),
            arity_fits(f, rs@.len()),
            flags@.len() == rets@.len(),
            forall|j: int|
                0 <= j < rets@.len() ==> f.has_site(#[trigger] rets@[j]) && f.op_at(rets@[j]) is Return,
            forall|j: int|
                0 <= j < rets@.len() ==> #[trigger] flags@[j] == never_nil(
                    p,
                    f,
                    enc@,
                    rs@,
                    verdicts@,
                    i as int,
                    j,
                ),
            clauses(out@) == with_correlations(
                p,
                f,
                enc@,
                rs@,
                verdicts@,
                start,
                i as int,
                x as int,
            ),
        decreases rs@.len() - x,
    {
        if is_error_type(&p.types, rs[x]) && x != i {
            let together = nil_together(f, rets, flags, x, Ghost(rs@.len()));
            assert(together == correlated(p, f, enc@, rs@, verdicts@, x as int, i as int)) by {
                if together {
                    assert forall|j: int|
                        0 <= j < ret_sites(f).len() && const_nil(
                            f,
                            returned(f, ret_sites(f)[j])[x as int],
                        ) implies #[trigger] never_nil(p, f, enc@, rs@, verdicts@, i as int, j) by {
                        assert(flags@[j]);
                    }
                } else {
                    let j = choose|j: int|
                        0 <= j < rets@.len() && const_nil(f, returned(f, ret_sites(f)[j])[x as int])
                            && !#[trigger] flags@[j];
                    assert(!never_nil(p, f, enc@, rs@, verdicts@, i as int, j));
                }
            }
            if together {
                if let (Some(a), Some(b)) = (result_not_nil(x as u32), result_not_nil(i as u32)) {
                    let ghost s = seq![a@, b@];
                    assert(s[0].sort() == Sort::Bool && s[1].sort() == Sort::Bool);
                    if let Some(t) = Term::or2(a, b) {
                        push_clause(out, nil_clause(t));
                    }
                }
            }
        }
        x += 1;
    }
}

fn infer_guarantees(
    p: &Program,
    f: &Function,
    enc: &EncodedFunc,
    rs: &Vec<TypeId>,
    rets: &Vec<Site>,
    verdicts: &Vec<SatResult>,
) -> (r: Vec<Clause>)
    requires
        enc.wf(),
        rets@ == ret_sites(f),
        arity_fits(f, rs@.len()),
        forall|j: int|
            0 <= j < rets@.len() ==> f.has_site(#[trigger] rets@[j]) && f.op_at(rets@[j]) is Return,
    ensures
        clauses(r@) == guarantees(p, f, enc@, rs@, verdicts@, rs@.len() as int),
{
    let mut out: Vec<Clause> = Vec::new();
    assert(clauses(out@) =~= Seq::<ClauseV>::empty());
    let mut pos: usize = 0;
    let mut i: usize = 0;
    while i < rs.len()
        invariant
            i <= rs@.len(),
            enc.wf(),
            rets@ == ret_sites(f),
            arity_fits(f, rs@.len()),
            forall|j: int|
                0 <= j < rets@.len() ==> f.has_site(#[trigger] rets@[j]) && f.op_at(rets@[j]) is Return,
            clauses(out@) == guarantees(p, f, enc@, rs@, verdicts@, i as int),
            pos == answer_place(verdicts@, nil_results(p, f, enc@, rs@, i as int).len() as int),
        decreases rs@.len() - i,
    {
        if sort_of(&p.types, rs[i]) == Some(Sort::Ptr) {
            let (flags, next) = never_nil_flags(p, f, enc, rs, rets, verdicts, i, pos);
            let all = all_true(&flags);
            assert(all == all_never_nil(p, f, enc@, rs@, verdicts@, i as int)) by {
                if all {
                    assert forall|j: int| 0 <= j < ret_sites(f).len() implies #[trigger] never_nil(
                        p,
                        f,
                        enc@,
                        rs@,
                        verdicts@,
                        i as int,
                        j,
                    ) by {
                        assert(flags@[j]);
                    }
                } else {
                    let j = choose|j: int| 0 <= j < flags@.len() && !#[trigger] flags@[j];
                    assert(!never_nil(p, f, enc@, rs@, verdicts@, i as int, j));
                }
            }
            if all {
                if let Some(t) = result_not_nil(i as u32) {
                    push_clause(&mut out, nil_clause(t));
                }
            } else {
                add_correlations(p, f, enc, rs, rets, verdicts, &flags, i, &mut out);
            }
            pos = next;
        }
        i += 1;
    }
    out
}

// ---- Obligations ----

/// Whether summary `s` was inferred and guarantees something about result `idx`.
pub open spec fn constrains(s: SummaryV, idx: u32) -> bool {
    s.provenance == Provenance::Inferred && exists|i: int|
        0 <= i < s.ensures_.len() && (#[trigger] s.ensures_[i]).tag == "nil-deref"@
            && s.ensures_[i].term.vars().contains_key(iface_name(IfaceVar::Result(idx)))
}

/// Whether a dereference of `v` with term `t` can be judged: `v` is the constant nil, or `t`
/// is a matter of the parameters.
pub open spec fn manifest(f: &Function, v: ValueId, t: TermV) -> bool {
    const_nil(f, v) || over_params(t)
}

/// The callee whose result `v` is, where the callee's guarantees say something about it.
pub open spec fn judged_callee(f: &Function, t: TableV, v: ValueId) -> Option<FuncId> {
    match call_result(f, v) {
        Some((c, idx)) => if constrains(t.summary(c), idx) { Some(c) } else { None },
        None => None,
    }
}

/// What is reported of a dereference in `f`, of the result of `callee` if it is one.
pub open spec fn deref_message(p: &Program, f: FuncId, callee: Option<FuncId>) -> Seq<char> {
    match callee {
        Some(c) => "possibly-nil result of "@ + p.name_of(c) + " dereferenced in "@ + p.name_of(f),
        None => "nil dereference in "@ + p.name_of(f),
    }
}

/// What may go wrong at the dereference `d`: its subject is nil although the function's own
/// requirements `pre` hold and the dereferences before it went well. A value of which nothing
/// is known raises nothing.
pub open spec fn deref_obligation(
    p: &Program,
    f: FuncId,
    func: &Function,
    e: EncodedV,
    t: TableV,
    pre: Seq<TermV>,
    ds: Seq<Deref>,
    d: Deref,
) -> Option<ObligationV> {
    match e.value(d.subject) {
        Some(s) => {
            let own = manifest(func, d.subject, s);
            let callee = if own { None } else { judged_callee(func, t, d.subject) };
            if !own && callee is None {
                None
            } else {
                match mk_is_nil(s) {
                    Some(n) => Some(
                        ObligationV {
                            tag: "nil-deref"@,
                            message: deref_message(p, f, callee),
                            pos: func.pos_at((d.block, d.instr)),
                            query: e.reach(
                                d.block as int,
                                (pre + assumed(e, ds, d.block as int, d.instr as int)).push(n),
                            ),
                        },
                    ),
                    None => None,
                }
            }
        },
        None => None,
    }
}

/// What may go wrong at the first `n` dereferences.
pub open spec fn deref_obligations(
    p: &Program,
    f: FuncId,
    func: &Function,
    e: EncodedV,
    t: TableV,
    pre: Seq<TermV>,
    ds: Seq<Deref>,
    n: int,
) -> Seq<ObligationV>
    decreases n,
{
    if n <= 0 {
        Seq::empty()
    } else {
        deref_obligations(p, f, func, e, t, pre, ds, n - 1) + opt_seq(
            deref_obligation(p, f, func, e, t, pre, ds, ds[n - 1]),
        )
    }
}

/// What may go wrong in `f`: its own dereferences, then its calls.
pub open spec fn nil_obligations(p: &Program, f: FuncId, t: TableV) -> Seq<ObligationV> {
    match nil_encoding(p, f, t) {
        Some((func, e)) => {
            let ds = derefs(p, &func);
            let pre = clause_terms(t.summary(f).requires_);
            deref_obligations(p, f, &func, e, t, pre, ds, ds.len() as int) + calls_obligations(
                p,
                &func,
                e,
                "nil-deref"@,
                pre,
                t,
                ds,
                func.sites().len() as int,
            )
        },
        None => Seq::empty(),
    }
}

fn constrains_result(s: &Summary, idx: u32) -> (r: bool)
    ensures
        r == constrains(s@, idx),
{
    if s.provenance != Provenance::Inferred {
        return false;
    }
    let name = iface_var_name(&IfaceVar::Result(idx));
    let mut i: usize = 0;
    while i < s.ensures_.len()
        invariant
            i <= s.ensures_@.len(),
            name@ == iface_name(IfaceVar::Result(idx)),
            s.provenance == Provenance::Inferred,
            forall|j: int|
                0 <= j < i ==> !((#[trigger] s@.ensures_[j]).tag == "nil-deref"@
                    && s@.ensures_[j].term.vars().contains_key(name@)),
        decreases s.ensures_@.len() - i,
    {
        let c = &s.ensures_[i];
        assert(s@.ensures_[i as int] == c@);
        if same_text(c.tag.as_str(), "nil-deref") && c.formula.term.free_vars().get(&name).is_some() {
            return true;
        }
        i += 1;
    }
    false
}

fn callee_to_judge(f: &Function, t: &SummaryTable, v: ValueId) -> (r: Option<FuncId>)
    requires
        t.wf(),
    ensures
        r == judged_callee(f, t@, v),
{
    match call_result_of(f, v) {
        Some((c, idx)) => match t.get(c) {
            Some(s) => if constrains_result(s, idx) {
                Some(c)
            } else {
                None
            },
            None => None,
        },
        None => None,
    }
}

fn deref_text(p: &Program, f: FuncId, callee: Option<FuncId>) -> (r: String)
    ensures
        r@ == deref_message(p, f, callee),
{
    match callee {
        Some(c) => {
            let mut m = "possibly-nil result of ".to_string();
            m.append(p.func_name(c));
            m.append(" dereferenced in ");
            m.append(p.func_name(f));
            m
        },
        None => {
            let mut m = "nil dereference in ".to_string();
            m.append(p.func_name(f));
            m
        },
    }
}

fn judge_deref(
    p: &Program,
    f: FuncId,
    func: &Function,
    enc: &EncodedFunc,
    t: &SummaryTable,
    pre: &Vec<Term>,
    ds: &Vec<Deref>,
    idom: &Vec<Option<usize>>,
    d: Deref,
) -> (r: Option<Obligation>)
    requires
        enc.wf(),
        t.wf(),
        idom_of(idom@, enc@.dag),
        func.has_site((d.block, d.instr)),
    ensures
        match r {
            Some(o) => deref_obligation(p, f, func, enc@, t@, terms(pre@), ds@, d) == Some(o@),
            None => deref_obligation(p, f, func, enc@, t@, terms(pre@), ds@, d) is None,
        },
{
    let s = match enc.value_term(d.subject) {
        Some(s) => s,
        None => {
            return None;
        },
    };
    let own = is_const_nil(func, d.subject) || params_only(&s);
    let callee = if own {
        None
    } else {
        callee_to_judge(func, t, d.subject)
    };
    if !own && callee.is_none() {
        return None;
    }
    match ptr_is_nil(s) {
        Some(n) => {
            let known = checked_deref_assumptions(ds, enc, idom, d.block, d.instr);
            let mut extra = joined_terms(pre, known);
            let ghost before = terms(extra@);
            let ghost nv = n@;
            extra.push(n);
            assert(terms(extra@) =~= before.push(nv));
            Some(
                Obligation {
                    tag: "nil-deref".to_string(),
                    message: deref_text(p, f, callee),
                    pos: clone_pos(&func.blocks[d.block].instrs[d.instr].pos),
                    query: enc.reach_query(d.block, extra),
                },
            )
        },
        None => None,
    }
}

fn judge_derefs(
    p: &Program,
    f: FuncId,
    func: &Function,
    enc: &EncodedFunc,
    t: &SummaryTable,
    pre: &Vec<Term>,
    ds: &Vec<Deref>,
    idom: &Vec<Option<usize>>,
) -> (r: Vec<Obligation>)
    requires
        enc.wf(),
        t.wf(),
        idom_of(idom@, enc@.dag),
        forall|i: int|
            0 <= i < ds@.len() ==> func.has_site(((#[trigger] ds@[i]).block, ds@[i].instr)),
    ensures
        obligations_v(r@) == deref_obligations(
            p,
            f,
            func,
            enc@,
            t@,
            terms(pre@),
            ds@,
            ds@.len() as int,
        ),
{
    let mut out: Vec<Obligation> = Vec::new();
    assert(obligations_v(out@) =~= Seq::<ObligationV>::empty());
    let mut i: usize = 0;
    while i < ds.len()
        invariant
            i <= ds@.len(),
            enc.wf(),
            t.wf(),
            idom_of(idom@, enc@.dag),
            forall|i: int|
                0 <= i < ds@.len() ==> func.has_site(((#[trigger] ds@[i]).block, ds@[i].instr)),
            obligations_v(out@) == deref_obligations(
                p,
                f,
                func,
                enc@,
                t@,
                terms(pre@),
                ds@,
                i as int,
            ),
        decreases ds@.len() - i,
    {
        let ghost before = out@;
        match judge_deref(p, f, func, enc, t, pre, ds, idom, ds[i]) {
            Some(o) => {
                let ghost o_v = o@;
                out.push(o);
                assert(obligations_v(out@) =~= obligations_v(before) + seq![o_v]);
            },
            None => {
                assert(obligations_v(out@) =~= obligations_v(before) + Seq::<ObligationV>::empty());
            },
        }
        i += 1;
    }
    out
}

impl Checker for NilChecker {
    open spec fn name_of(&self) -> Seq<char> {
        "nil"@
    }

    open spec fn version_of(&self) -> u32 {
        1
    }

    open spec fn requires_asked(&self, p: &Program, f: FuncId, t: TableV) -> Seq<QueryV> {
        candidate_queries(nil_candidates(p, f, t))
    }

    open spec fn requires_of(
        &self,
        p: &Program,
        f: FuncId,
        t: TableV,
        verdicts: Seq<SatResult>,
    ) -> Seq<ClauseV> {
        accepted(nil_candidates(p, f, t), verdicts, nil_candidates(p, f, t).len() as int)
    }

    open spec fn ensures_asked(&self, p: &Program, f: FuncId, t: TableV) -> Seq<QueryV> {
        nil_ensures_asked(p, f, t)
    }

    open spec fn ensures_skipped(
        &self,
        p: &Program,
        f: FuncId,
        t: TableV,
        verdicts: Seq<SatResult>,
    ) -> Seq<bool> {
        nil_ensures_skipped(p, f, t, verdicts)
    }

    open spec fn ensures_of(
        &self,
        p: &Program,
        f: FuncId,
        t: TableV,
        verdicts: Seq<SatResult>,
    ) -> Seq<ClauseV> {
        nil_ensures(p, f, t, verdicts)
    }

    open spec fn obligations_of(&self, p: &Program, f: FuncId, t: TableV) -> Seq<ObligationV> {
        nil_obligations(p, f, t)
    }

    fn name(&self) -> (r: &'static str) {
        "nil"
    }

    fn version(&self) -> (r: u32) {
        1
    }

    /// One query per dereference of a parameter, then one per requirement of a callee that
    /// speaks of parameters only.
    fn requires_queries(&self, p: &Program, f: FuncId, t: &SummaryTable) -> (r: Vec<Query>) {
        list_queries(all_candidates(p, f, t))
    }

    /// Parameters are required not to be nil where a nil one can reach a dereference.
    fn infer_requires(&self, p: &Program, f: FuncId, t: &SummaryTable, verdicts: &Vec<SatResult>) -> (r: Vec<
        Clause,
    >) {
        let cs = all_candidates(p, f, t);
        assert(candidates_v(cs@).len() == cs@.len());
        accept(&cs, verdicts)
    }

    /// For each pointer result, one query per return: whether it can be nil there.
    fn ensures_queries(&self, p: &Program, f: FuncId, t: &SummaryTable) -> (r: Vec<Query>) {
        let none: Vec<Query> = Vec::new();
        assert(queries_v(none@) =~= Seq::<QueryV>::empty());
        let func = match p.func(f) {
            Some(func) => func,
            None => {
                return none;
            },
        };
        let enc = match encode_func_with(p, f, t) {
            Ok(enc) => enc,
            Err(_) => {
                return none;
            },
        };
        match p.types.kind(func.sig) {
            Some(TypeKind::Signature { results, .. }) => {
                let rets = return_sites(func);
                if returns_fit(func, &rets, results.len()) {
                    result_queries(p, func, &enc, results, &rets)
                } else {
                    none
                }
            },
            _ => none,
        }
    }

    /// Returns are asked about in order, up to the first that can be nil.
    fn skipped_ensures(&self, p: &Program, f: FuncId, t: &SummaryTable, verdicts: &Vec<SatResult>) -> (r: Vec<
        bool,
    >) {
        let none: Vec<bool> = Vec::new();
        let func = match p.func(f) {
            Some(func) => func,
            None => {
                return none;
            },
        };
        let enc = match encode_func_with(p, f, t) {
            Ok(enc) => enc,
            Err(_) => {
                return none;
            },
        };
        match p.types.kind(func.sig) {
            Some(TypeKind::Signature { results, .. }) => {
                let rets = return_sites(func);
                if returns_fit(func, &rets, results.len()) {
                    mark_results(p, func, &enc, results, &rets, verdicts)
                } else {
                    none
                }
            },
            _ => none,
        }
    }

    /// A pointer result is guaranteed not to be nil where no return can return nil, and not
    /// to be nil together with an error result where that holds at every return whose error
    /// is the constant nil.
    fn infer_ensures(&self, p: &Program, f: FuncId, t: &SummaryTable, verdicts: &Vec<SatResult>) -> (r: Vec<
        Clause,
    >) {
        let none: Vec<Clause> = Vec::new();
        assert(clauses(none@) =~= Seq::<ClauseV>::empty());
        let func = match p.func(f) {
            Some(func) => func,
            None => {
                return none;
            },
        };
        let enc = match encode_func_with(p, f, t) {
            Ok(enc) => enc,
            Err(_) => {
                return none;
            },
        };
        match p.types.kind(func.sig) {
            Some(TypeKind::Signature { results, .. }) => {
                let rets = return_sites(func);
                if returns_fit(func, &rets, results.len()) {
                    infer_guarantees(p, func, &enc, results, &rets, verdicts)
                } else {
                    none
                }
            },
            _ => none,
        }
    }

    /// Dereferences whose subject can be nil under the function's own requirements, and calls
    /// that can violate what the callee requires.
    fn obligations(&self, p: &Program, f: FuncId, t: &SummaryTable) -> (r: Vec<Obligation>) {
        let none: Vec<Obligation> = Vec::new();
        assert(obligations_v(none@) =~= Seq::<ObligationV>::empty());
        let func = match p.func(f) {
            Some(func) => func,
            None => {
                return none;
            },
        };
        let enc = match encode_func_with(p, f, t) {
            Ok(enc) => enc,
            Err(_) => {
                return none;
            },
        };
        let pre = preconditions_of(t, f);
        let ds = deref_sites(p, func);
        let idom = dominators_of(&enc);
        let mut out = judge_derefs(p, f, func, &enc, t, &pre, &ds, &idom);
        call_site_obligations(p, func, &enc, "nil-deref", &pre, t, &ds, &idom, &mut out);
        out
    }

    fn inference_fails(
        &self,
        p: &Program,
        f: FuncId,
        t: &SummaryTable,
        rv: &Vec<SatResult>,
        ev: &Vec<SatResult>,
    ) -> (r: bool) {
        false
    }

    fn checking_fails(&self, p: &Program, f: FuncId, t: &SummaryTable) -> (r: bool) {
        false
    }
}

} // verus!
