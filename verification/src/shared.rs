//! What the checkers have in common: requirements that travel up through calls, violated
//! requirements at calls, and what earlier dereferences tell.

use vstd::prelude::*;
use crate::checker::{
    candidates_v, obligations_v, Candidate, CandidateV, Obligation, ObligationV,
};
use crate::dfs::acyclic;
use crate::dom::{dominates, dominators, strict, strictly_dominates};
use crate::encode::{opt_seq, under_guard, value_terms, values_at, EncodedFunc, EncodedV};
use crate::graph::reaches;
use crate::ir::{
    clone_pos, same_text, Callee, FuncId, Function, Op, Program, Site, TypeKind, ValueId,
};
use crate::summary::{
    bound_all, bounds_v, clauses, instantiate_requires, BoundClause, BoundV, Clause, ClauseV,
    Formula, Provenance, SummaryTable, TableV,
};
use crate::term::{mk_is_nil, mk_not, opt_term, ptr_is_nil, terms, Term, TermV};
use crate::text::{chars_of, parse_u32, parse_u32_spec};

verus! {

/// Whether `n` is the name of a parameter.
pub open spec fn is_param_name(n: Seq<char>) -> bool {
    n.len() > 0 && n[0] == 'p' && parse_u32_spec(n.skip(1)) is Some
}

/// Whether `t` speaks of parameters only.
pub open spec fn over_params(t: TermV) -> bool {
    forall|n: Seq<char>| #[trigger] t.vars().contains_key(n) ==> is_param_name(n)
}

/// Whether `t` speaks of parameters only: that is what a requirement may speak of.
pub fn params_only(t: &Term) -> (r: bool)
    ensures
        r == over_params(t@),
{
    let vars = t.free_vars();
    let ghost items = vars.items();
    proof {
        vars.lemma_items();
    }
    let mut i: usize = 0;
    while i < vars.len()
        invariant
            i <= items.len(),
            items == vars.items(),
            vars.wf(),
            vars@ == t@.vars(),
            forall|j: int| 0 <= j < items.len() ==> vars@.contains_key((#[trigger] items[j]).0),
            forall|j: int| 0 <= j < i ==> is_param_name((#[trigger] items[j]).0),
        decreases items.len() - i,
    {
        let cs = chars_of(vars.key_at(i).as_str());
        let ok = cs.len() > 0 && cs[0] == 'p' && parse_u32(&cs, 1).is_some();
        if !ok {
            assert(t@.vars().contains_key(items[i as int].0));
            return false;
        }
        i += 1;
    }
    assert forall|n: Seq<char>| #[trigger] t@.vars().contains_key(n) implies is_param_name(n) by {
        let j = choose|j: int| 0 <= j < items.len() && #[trigger] items[j] == (n, vars@[n]);
        assert(is_param_name(items[j].0));
    }
    true
}

/// The formulas of clauses.
pub open spec fn clause_terms(s: Seq<ClauseV>) -> Seq<TermV> {
    Seq::new(s.len(), |i: int| s[i].term)
}

/// What the function requires, as terms over its parameters.
pub fn own_preconditions(own: &Vec<Clause>) -> (r: Vec<Term>)
    ensures
        terms(r@) == clause_terms(clauses(own@)),
{
    let mut out: Vec<Term> = Vec::new();
    let mut i: usize = 0;
    while i < own.len()
        invariant
            i <= own@.len(),
            out@.len() == i,
            forall|j: int| 0 <= j < i ==> (#[trigger] out@[j])@ == own@[j].formula.term@,
        decreases own@.len() - i,
    {
        out.push(own[i].formula.term.dup());
        i += 1;
    }
    assert(terms(out@) =~= clause_terms(clauses(own@)));
    out
}

/// The requirements of `f`, as terms over its parameters.
pub fn preconditions_of(t: &SummaryTable, f: FuncId) -> (r: Vec<Term>)
    requires
        t.wf(),
    ensures
        terms(r@) == clause_terms(t.summary(f).requires_),
{
    match t.get(f) {
        Some(s) => own_preconditions(&s.requires_),
        None => {
            let r: Vec<Term> = Vec::new();
            assert(terms(r@) =~= clause_terms(t.summary(f).requires_));
            r
        },
    }
}

// ---- Dereferences ----

/// What the operation dereferences.
pub open spec fn subject_of(op: Op) -> Option<ValueId> {
    match op {
        Op::Load { addr, .. } => Some(addr),
        Op::Store { addr, .. } => Some(addr),
        Op::FieldAddr { base, .. } => Some(base),
        Op::Field { base, .. } => Some(base),
        _ => None,
    }
}

/// A dereference of a pointer: where it is and what is dereferenced.
#[derive(Debug, Clone, Copy, PartialEq, Eq, Structural)]
pub struct Deref {
    pub block: usize,
    pub instr: usize,
    pub subject: ValueId,
}

/// The dereference at `s`, if there is one.
pub open spec fn deref_at(p: &Program, f: &Function, s: Site) -> Option<Deref> {
    match subject_of(f.op_at(s)) {
        Some(v) => if p.types.kind_of(f.type_of(v)) is Pointer {
            Some(Deref { block: s.0, instr: s.1, subject: v })
        } else {
            None
        },
        None => None,
    }
}

/// The dereferences among the first `k` instructions.
pub open spec fn derefs_upto(p: &Program, f: &Function, k: int) -> Seq<Deref>
    decreases k,
{
    if k <= 0 {
        Seq::empty()
    } else {
        derefs_upto(p, f, k - 1) + opt_seq(deref_at(p, f, f.sites()[k - 1]))
    }
}

/// The dereferences of a function, in order.
pub open spec fn derefs(p: &Program, f: &Function) -> Seq<Deref> {
    derefs_upto(p, f, f.sites().len() as int)
}

/// Every place where a pointer is dereferenced.
pub fn deref_sites(p: &Program, f: &Function) -> (r: Vec<Deref>)
    ensures
        r@ == derefs(p, f),
        forall|i: int|
            0 <= i < r@.len() ==> f.has_site(((#[trigger] r@[i]).block, r@[i].instr)),
{
    let sites = f.all_sites();
    let mut out: Vec<Deref> = Vec::new();
    let mut k: usize = 0;
    while k < sites.len()
        invariant
            k <= sites@.len(),
            sites@ == f.sites(),
            forall|k: int| 0 <= k < sites@.len() ==> f.has_site(#[trigger] sites@[k]),
            out@ == derefs_upto(p, f, k as int),
            forall|i: int|
                0 <= i < out@.len() ==> f.has_site(((#[trigger] out@[i]).block, out@[i].instr)),
        decreases sites@.len() - k,
    {
        let s = sites[k];
        let subject = match f.op(s) {
            Op::Load { addr, .. } => Some(*addr),
            Op::Store { addr, .. } => Some(*addr),
            Op::FieldAddr { base, .. } => Some(*base),
            Op::Field { base, .. } => Some(*base),
            _ => None,
        };
        let ghost before = out@;
        if let Some(v) = subject {
            let is_pointer = match p.types.kind(f.value_type(v)) {
                Some(TypeKind::Pointer { .. }) => true,
                _ => false,
            };
            if is_pointer {
                assert(f.has_site((s.0, s.1)));
                out.push(Deref { block: s.0, instr: s.1, subject: v });
            }
        }
        assert(out@ =~= before + opt_seq(deref_at(p, f, s)));
        k += 1;
    }
    out
}

/// Whether block `a` strictly dominates block `b` along the edges `g`.
pub open spec fn strictly_before(g: Seq<Seq<u32>>, a: int, b: int) -> bool {
    0 <= b < g.len() && a != b && reaches(g, 0, b) && dominates(g, a, b)
}

/// Whether the chains of `idom` give strict dominance along `g`.
pub open spec fn idom_of(idom: Seq<Option<usize>>, g: Seq<Seq<u32>>) -> bool {
    forall|a: int, b: int| 0 <= b ==> #[trigger] strict(idom, a, b) == strictly_before(g, a, b)
}

/// The immediate dominators along the kept edges of an encoding.
pub fn dominators_of(enc: &EncodedFunc) -> (r: Vec<Option<usize>>)
    requires
        acyclic(enc@.dag),
    ensures
        idom_of(r@, enc@.dag),
{
    let r = dominators(&enc.dag_succs);
    proof {
        let g = enc@.dag;
        assert(g.len() == enc.dag_succs@.len());
        assert forall|a: int, b: int| 0 <= b implies #[trigger] strict(r@, a, b) == strictly_before(
            g,
            a,
            b,
        ) by {
            if b >= r@.len() {
                assert(!crate::dom::on_chain(r@, a, b, r@.len()));
            }
        }
    }
    r
}

/// Whether the dereference `d` comes before instruction `instr` of `block` on every
/// execution that reaches it.
pub open spec fn runs_before(g: Seq<Seq<u32>>, d: Deref, block: int, instr: int) -> bool {
    (d.block == block && d.instr < instr) || strictly_before(g, d.block as int, block)
}

/// That the subject of `d` was not nil if its block was reached.
pub open spec fn survived(e: EncodedV, d: Deref) -> Option<TermV> {
    match e.value(d.subject) {
        Some(s) => match mk_is_nil(s) {
            Some(n) => under_guard(e.guard(d.block as int), mk_not(n)),
            None => None,
        },
        None => None,
    }
}

/// What the first `n` of the dereferences `ds` tell at instruction `instr` of `block`.
pub open spec fn deref_facts(e: EncodedV, ds: Seq<Deref>, block: int, instr: int, n: int) -> Seq<TermV>
    decreases n,
{
    if n <= 0 {
        Seq::empty()
    } else {
        let before = deref_facts(e, ds, block, instr, n - 1);
        if runs_before(e.dag, ds[n - 1], block, instr) {
            before + opt_seq(survived(e, ds[n - 1]))
        } else {
            before
        }
    }
}

/// What is known at instruction `instr` of `block` because dereferences that come before it
/// on every execution did not fail. Each fact is conditional on its block being reached. The
/// dereference at the place itself tells nothing, so the first failure is reported.
pub fn checked_deref_assumptions(
    ds: &Vec<Deref>,
    enc: &EncodedFunc,
    idom: &Vec<Option<usize>>,
    block: usize,
    instr: usize,
) -> (r: Vec<Term>)
    requires
        enc.wf(),
        ds@.len() > 0 ==> idom_of(idom@, enc@.dag),
    ensures
        terms(r@) == deref_facts(enc@, ds@, block as int, instr as int, ds@.len() as int),
{
    let mut out: Vec<Term> = Vec::new();
    let ghost e = enc@;
    assert(terms(out@) =~= Seq::<TermV>::empty());
    let mut i: usize = 0;
    while i < ds.len()
        invariant
            i <= ds@.len(),
            enc.wf(),
            e == enc@,
            ds@.len() > 0 ==> idom_of(idom@, e.dag),
            terms(out@) == deref_facts(e, ds@, block as int, instr as int, i as int),
        decreases ds@.len() - i,
    {
        let d = ds[i];
        let runs = (d.block == block && d.instr < instr) || strictly_dominates(idom, d.block, block);
        assert(runs == runs_before(e.dag, d, block as int, instr as int));
        if runs {
            let nonnil = match enc.value_term(d.subject) {
                Some(s) => match ptr_is_nil(s) {
                    Some(n) => Term::not(n),
                    None => None,
                },
                None => None,
            };
            let fact = match (enc.guard_term(d.block), nonnil) {
                (Some(g), Some(t)) => match Term::not(g) {
                    Some(ng) => Term::or2(ng, t),
                    None => None,
                },
                _ => None,
            };
            assert(opt_term(fact) == survived(e, d));
            let ghost before = out@;
            let ghost fv = opt_term(fact);
            if let Some(t) = fact {
                out.push(t);
            }
            assert(terms(out@) =~= terms(before) + opt_seq(fv));
        }
        i += 1;
    }
    out
}

/// All that earlier dereferences tell at instruction `instr` of `block`.
pub open spec fn assumed(e: EncodedV, ds: Seq<Deref>, block: int, instr: int) -> Seq<TermV> {
    deref_facts(e, ds, block, instr, ds.len() as int)
}

/// No dereference tells anything about itself.
pub proof fn own_deref_tells_nothing(g: Seq<Seq<u32>>, d: Deref)
    ensures
        !runs_before(g, d, d.block as int, d.instr as int),
{
}

// ---- Requirements that travel up ----

/// What a callee's requirement `b` makes the caller require, if it can be violated: the
/// bound clause, where it has the tag and speaks of the caller's parameters only.
pub open spec fn propagated(
    e: EncodedV,
    tag: Seq<char>,
    known: Seq<TermV>,
    block: int,
    b: BoundV,
) -> Option<CandidateV> {
    if b.tag == tag {
        match (b.bound, b.violation) {
            (Some(t), Some(v)) => if over_params(t) {
                Some(
                    CandidateV {
                        clause: ClauseV { tag, term: t, provenance: Provenance::Inferred },
                        query: e.reach(block, known.push(v)),
                    },
                )
            } else {
                None
            },
            _ => None,
        }
    } else {
        None
    }
}

/// The candidates of the first `n` requirements at one call.
pub open spec fn propagated_bounds(
    e: EncodedV,
    tag: Seq<char>,
    known: Seq<TermV>,
    block: int,
    bs: Seq<BoundV>,
    n: int,
) -> Seq<CandidateV>
    decreases n,
{
    if n <= 0 {
        Seq::empty()
    } else {
        propagated_bounds(e, tag, known, block, bs, n - 1) + opt_seq(
            propagated(e, tag, known, block, bs[n - 1]),
        )
    }
}

/// The requirements of the callee at a static call with arguments `args`.
pub open spec fn call_bounds(e: EncodedV, t: TableV, c: FuncId, args: Seq<ValueId>) -> Seq<BoundV> {
    bound_all(t.summary(c).requires_, values_at(e, args), Seq::empty())
}

/// The candidates of the calls among the first `k` instructions.
pub open spec fn propagated_calls(
    f: &Function,
    e: EncodedV,
    tag: Seq<char>,
    t: TableV,
    ds: Seq<Deref>,
    k: int,
) -> Seq<CandidateV>
    decreases k,
{
    if k <= 0 {
        Seq::empty()
    } else {
        let before = propagated_calls(f, e, tag, t, ds, k - 1);
        let s = f.sites()[k - 1];
        match f.op_at(s) {
            Op::Call { callee: Callee::Static(c), args, .. } => {
                let bs = call_bounds(e, t, c, args@);
                before + propagated_bounds(
                    e,
                    tag,
                    assumed(e, ds, s.0 as int, s.1 as int),
                    s.0 as int,
                    bs,
                    bs.len() as int,
                )
            },
            _ => before,
        }
    }
}

/// The requirements of callee `c` at a call with arguments `args`.
pub fn bind_requires(enc: &EncodedFunc, t: &SummaryTable, c: FuncId, args: &Vec<ValueId>) -> (r: Vec<
    BoundClause,
>)
    requires
        enc.wf(),
        t.wf(),
    ensures
        bounds_v(r@) == call_bounds(enc@, t@, c, args@),
{
    match t.get(c) {
        Some(s) => {
            let av = value_terms(enc, args);
            instantiate_requires(s, &av)
        },
        None => {
            let r: Vec<BoundClause> = Vec::new();
            assert(bounds_v(r@) =~= call_bounds(enc@, t@, c, args@));
            r
        },
    }
}

fn add_bounds(
    enc: &EncodedFunc,
    tag: &str,
    known: &Vec<Term>,
    block: usize,
    bs: &Vec<BoundClause>,
    out: &mut Vec<Candidate>,
)
    ensures
        candidates_v(final(out)@) == candidates_v(old(out)@) + propagated_bounds(
            enc@,
            tag@,
            terms(known@),
            block as int,
            bounds_v(bs@),
            bs@.len() as int,
        ),
{
    let ghost start = candidates_v(out@);
    let ghost bv = bounds_v(bs@);
    let ghost av = terms(known@);
    assert(start + Seq::<CandidateV>::empty() =~= start);
    let mut i: usize = 0;
    while i < bs.len()
        invariant
            i <= bs@.len(),
            bv == bounds_v(bs@),
            av == terms(known@),
            candidates_v(out@) == start + propagated_bounds(enc@, tag@, av, block as int, bv, i as int),
        decreases bs@.len() - i,
    {
        assert(bv[i as int] == bs@[i as int]@);
        let ghost before = out@;
        let mut found: Option<Candidate> = None;
        if same_text(bs[i].tag.as_str(), tag) {
            if let (Some(t), Some(v)) = (&bs[i].bound, &bs[i].violation) {
                if params_only(t) {
                    let mut extra = Term::dup_list(known);
                    let ghost e0 = extra@;
                    extra.push(v.dup());
                    assert(terms(extra@) =~= av.push(v@));
                    found = Some(
                        Candidate {
                            clause: Clause {
                                tag: tag.to_string(),
                                formula: Formula { term: t.dup() },
                                provenance: Provenance::Inferred,
                            },
                            query: enc.reach_query(block, extra),
                        },
                    );
                }
            }
        }
        let ghost want = propagated(enc@, tag@, av, block as int, bv[i as int]);
        match found {
            Some(c) => {
                assert(want == Some(c@));
                let ghost cv = c@;
                out.push(c);
                assert(candidates_v(out@) =~= candidates_v(before) + seq![cv]);
            },
            None => {
                assert(want is None);
                assert(candidates_v(out@) =~= candidates_v(before) + Seq::<CandidateV>::empty());
            },
        }
        i += 1;
        assert(candidates_v(out@) =~= start + propagated_bounds(enc@, tag@, av, block as int, bv, i as int));
    }
}

/// What `f` should require because its callees do: every requirement of a static callee with
/// the tag, at the caller's terms, where it speaks of the caller's parameters only. Each is
/// inferred if a violation is reachable.
pub fn propagate_requires(
    f: &Function,
    enc: &EncodedFunc,
    tag: &str,
    t: &SummaryTable,
    ds: &Vec<Deref>,
    idom: &Vec<Option<usize>>,
    out: &mut Vec<Candidate>,
)
    requires
        enc.wf(),
        t.wf(),
        ds@.len() > 0 ==> idom_of(idom@, enc@.dag),
    ensures
        candidates_v(final(out)@) == candidates_v(old(out)@) + propagated_calls(
            f,
            enc@,
            tag@,
            t@,
            ds@,
            f.sites().len() as int,
        ),
{
    let sites = f.all_sites();
    let ghost start = candidates_v(out@);
    assert(start + Seq::<CandidateV>::empty() =~= start);
    let mut k: usize = 0;
    while k < sites.len()
        invariant
            k <= sites@.len(),
            sites@ == f.sites(),
            forall|k: int| 0 <= k < sites@.len() ==> f.has_site(#[trigger] sites@[k]),
            enc.wf(),
            t.wf(),
            ds@.len() > 0 ==> idom_of(idom@, enc@.dag),
            candidates_v(out@) == start + propagated_calls(f, enc@, tag@, t@, ds@, k as int),
        decreases sites@.len() - k,
    {
        let s = sites[k];
        if let Op::Call { callee: Callee::Static(c), args, .. } = f.op(s) {
            let bs = bind_requires(enc, t, *c, args);
            let known = checked_deref_assumptions(ds, enc, idom, s.0, s.1);
            assert(bounds_v(bs@).len() == bs@.len());
            add_bounds(enc, tag, &known, s.0, &bs, out);
        }
        k += 1;
        assert(candidates_v(out@) =~= start + propagated_calls(f, enc@, tag@, t@, ds@, k as int));
    }
}

// ---- Violated requirements at calls ----

/// The message for a violated requirement of callee `c`.
pub open spec fn violates_message(p: &Program, c: FuncId, tag: Seq<char>) -> Seq<char> {
    "call to "@ + p.name_of(c) + " violates its "@ + tag + " requirement"@
}

/// What may go wrong with requirement `b` of callee `c`, called at `s`.
pub open spec fn call_obligation(
    p: &Program,
    f: &Function,
    e: EncodedV,
    tag: Seq<char>,
    extra: Seq<TermV>,
    s: Site,
    c: FuncId,
    b: BoundV,
) -> Option<ObligationV> {
    if b.tag == tag {
        match b.violation {
            Some(v) => Some(
                ObligationV {
                    tag,
                    message: violates_message(p, c, tag),
                    pos: f.pos_at(s),
                    query: e.reach(s.0 as int, extra.push(v)),
                },
            ),
            None => None,
        }
    } else {
        None
    }
}

/// What may go wrong with the first `n` requirements at one call.
pub open spec fn call_obligations(
    p: &Program,
    f: &Function,
    e: EncodedV,
    tag: Seq<char>,
    extra: Seq<TermV>,
    s: Site,
    c: FuncId,
    bs: Seq<BoundV>,
    n: int,
) -> Seq<ObligationV>
    decreases n,
{
    if n <= 0 {
        Seq::empty()
    } else {
        call_obligations(p, f, e, tag, extra, s, c, bs, n - 1) + opt_seq(
            call_obligation(p, f, e, tag, extra, s, c, bs[n - 1]),
        )
    }
}

/// What may go wrong at the calls among the first `k` instructions.
pub open spec fn calls_obligations(
    p: &Program,
    f: &Function,
    e: EncodedV,
    tag: Seq<char>,
    pre: Seq<TermV>,
    t: TableV,
    ds: Seq<Deref>,
    k: int,
) -> Seq<ObligationV>
    decreases k,
{
    if k <= 0 {
        Seq::empty()
    } else {
        let before = calls_obligations(p, f, e, tag, pre, t, ds, k - 1);
        let s = f.sites()[k - 1];
        match f.op_at(s) {
            Op::Call { callee: Callee::Static(c), args, .. } => {
                let bs = call_bounds(e, t, c, args@);
                before + call_obligations(
                    p,
                    f,
                    e,
                    tag,
                    pre + assumed(e, ds, s.0 as int, s.1 as int),
                    s,
                    c,
                    bs,
                    bs.len() as int,
                )
            },
            _ => before,
        }
    }
}

fn violates_text(p: &Program, c: FuncId, tag: &str) -> (r: String)
    ensures
        r@ == violates_message(p, c, tag@),
{
    let mut m = "call to ".to_string();
    m.append(p.func_name(c));
    m.append(" violates its ");
    m.append(tag);
    m.append(" requirement");
    m
}

fn add_call_obligations(
    p: &Program,
    f: &Function,
    enc: &EncodedFunc,
    tag: &str,
    extra: &Vec<Term>,
    s: Site,
    c: FuncId,
    bs: &Vec<BoundClause>,
    out: &mut Vec<Obligation>,
)
    requires
        f.has_site(s),
    ensures
        obligations_v(final(out)@) == obligations_v(old(out)@) + call_obligations(
            p,
            f,
            enc@,
            tag@,
            terms(extra@),
            s,
            c,
            bounds_v(bs@),
            bs@.len() as int,
        ),
{
    let ghost start = obligations_v(out@);
    let ghost bv = bounds_v(bs@);
    let ghost ev = terms(extra@);
    assert(start + Seq::<ObligationV>::empty() =~= start);
    let mut i: usize = 0;
    while i < bs.len()
        invariant
            i <= bs@.len(),
            f.has_site(s),
            bv == bounds_v(bs@),
            ev == terms(extra@),
            obligations_v(out@) == start + call_obligations(p, f, enc@, tag@, ev, s, c, bv, i as int),
        decreases bs@.len() - i,
    {
        assert(bv[i as int] == bs@[i as int]@);
        let ghost before = out@;
        let mut found: Option<Obligation> = None;
        if same_text(bs[i].tag.as_str(), tag) {
            if let Some(v) = &bs[i].violation {
                let mut all = Term::dup_list(extra);
                all.push(v.dup());
                assert(terms(all@) =~= ev.push(v@));
                found = Some(
                    Obligation {
                        tag: tag.to_string(),
                        message: violates_text(p, c, tag),
                        pos: clone_pos(&f.blocks[s.0].instrs[s.1].pos),
                        query: enc.reach_query(s.0, all),
                    },
                );
            }
        }
        let ghost want = call_obligation(p, f, enc@, tag@, ev, s, c, bv[i as int]);
        match found {
            Some(o) => {
                assert(want == Some(o@));
                let ghost o_v = o@;
                out.push(o);
                assert(obligations_v(out@) =~= obligations_v(before) + seq![o_v]);
            },
            None => {
                assert(want is None);
                assert(obligations_v(out@) =~= obligations_v(before) + Seq::<ObligationV>::empty());
            },
        }
        i += 1;
        assert(obligations_v(out@) =~= start + call_obligations(p, f, enc@, tag@, ev, s, c, bv, i as int));
    }
}

/// A copy of `a` followed by `b`.
pub fn joined_terms(a: &Vec<Term>, b: Vec<Term>) -> (r: Vec<Term>)
    ensures
        terms(r@) == terms(a@) + terms(b@),
{
    let ghost bv = terms(b@);
    let mut out = Term::dup_list(a);
    let ghost av = out@;
    let mut rest = b;
    out.append(&mut rest);
    assert(terms(out@) =~= terms(av) + bv);
    out
}

/// What may go wrong at the static calls of `f`: every requirement of a callee with the tag,
/// violated at the caller's terms while the caller's own requirements `pre` hold.
pub fn call_site_obligations(
    p: &Program,
    f: &Function,
    enc: &EncodedFunc,
    tag: &str,
    pre: &Vec<Term>,
    t: &SummaryTable,
    ds: &Vec<Deref>,
    idom: &Vec<Option<usize>>,
    out: &mut Vec<Obligation>,
)
    requires
        enc.wf(),
        t.wf(),
        ds@.len() > 0 ==> idom_of(idom@, enc@.dag),
    ensures
        obligations_v(final(out)@) == obligations_v(old(out)@) + calls_obligations(
            p,
            f,
            enc@,
            tag@,
            terms(pre@),
            t@,
            ds@,
            f.sites().len() as int,
        ),
{
    let sites = f.all_sites();
    let ghost start = obligations_v(out@);
    let ghost pv = terms(pre@);
    assert(start + Seq::<ObligationV>::empty() =~= start);
    let mut k: usize = 0;
    while k < sites.len()
        invariant
            k <= sites@.len(),
            sites@ == f.sites(),
            forall|k: int| 0 <= k < sites@.len() ==> f.has_site(#[trigger] sites@[k]),
            enc.wf(),
            t.wf(),
            pv == terms(pre@),
            ds@.len() > 0 ==> idom_of(idom@, enc@.dag),
            obligations_v(out@) == start + calls_obligations(p, f, enc@, tag@, pv, t@, ds@, k as int),
        decreases sites@.len() - k,
    {
        let s = sites[k];
        if let Op::Call { callee: Callee::Static(c), args, .. } = f.op(s) {
            let bs = bind_requires(enc, t, *c, args);
            let known = checked_deref_assumptions(ds, enc, idom, s.0, s.1);
            let extra = joined_terms(pre, known);
            assert(bounds_v(bs@).len() == bs@.len());
            add_call_obligations(p, f, enc, tag, &extra, s, *c, &bs, out);
        }
        k += 1;
        assert(obligations_v(out@) =~= start + calls_obligations(p, f, enc@, tag@, pv, t@, ds@, k as int));
    }
}

// ---- Values behind assignments ----

/// How many assignments are followed.
pub const CANONICAL_HOPS: usize = 64;

/// The source of the first assignment to `v` of another value, at or after instruction `k`.
pub open spec fn assigned_from(f: &Function, v: ValueId, k: int) -> Option<ValueId>
    decreases f.sites().len() - k,
{
    if k < 0 || k >= f.sites().len() {
        None
    } else {
        match f.op_at(f.sites()[k]) {
            Op::Assign { dst, src } => if dst == v && src != v {
                Some(src)
            } else {
                assigned_from(f, v, k + 1)
            },
            _ => assigned_from(f, v, k + 1),
        }
    }
}

/// The value behind at most `hops` assignments.
pub open spec fn behind(f: &Function, v: ValueId, hops: nat) -> ValueId
    decreases hops,
{
    if hops == 0 {
        v
    } else {
        match assigned_from(f, v, 0) {
            Some(s) => behind(f, s, (hops - 1) as nat),
            None => v,
        }
    }
}

/// The value that `v` is a copy of.
pub open spec fn canonical(f: &Function, v: ValueId) -> ValueId {
    behind(f, v, CANONICAL_HOPS as nat)
}

fn assign_source(f: &Function, sites: &Vec<Site>, v: ValueId) -> (r: Option<ValueId>)
    requires
        sites@ == f.sites(),
        forall|k: int| 0 <= k < sites@.len() ==> f.has_site(#[trigger] sites@[k]),
    ensures
        r == assigned_from(f, v, 0),
{
    let mut k: usize = 0;
    while k < sites.len()
        invariant
            k <= sites@.len(),
            sites@ == f.sites(),
            forall|k: int| 0 <= k < sites@.len() ==> f.has_site(#[trigger] sites@[k]),
            assigned_from(f, v, 0) == assigned_from(f, v, k as int),
        decreases sites@.len() - k,
    {
        if let Op::Assign { dst, src } = f.op(sites[k]) {
            if *dst == v && *src != v {
                return Some(*src);
            }
        }
        k += 1;
    }
    None
}

/// The value that `v` is a copy of, through assignments. A cycle of assignments ends the
/// search somewhere on it.
pub fn canonical_value(f: &Function, v: ValueId) -> (r: ValueId)
    ensures
        r == canonical(f, v),
{
    let sites = f.all_sites();
    let mut cur = v;
    let mut left: usize = CANONICAL_HOPS;
    while left > 0
        invariant
            left <= CANONICAL_HOPS,
            sites@ == f.sites(),
            forall|k: int| 0 <= k < sites@.len() ==> f.has_site(#[trigger] sites@[k]),
            behind(f, cur, left as nat) == canonical(f, v),
        decreases left,
    {
        match assign_source(f, &sites, cur) {
            Some(s) => {
                cur = s;
            },
            None => {
                return cur;
            },
        }
        left -= 1;
    }
    cur
}

/// The callee of the first static call that defines `v`, at or after instruction `k`.
pub open spec fn call_defining(f: &Function, v: ValueId, k: int) -> Option<FuncId>
    decreases f.sites().len() - k,
{
    if k < 0 || k >= f.sites().len() {
        None
    } else {
        match f.op_at(f.sites()[k]) {
            Op::Call { dst: Some(d), callee: Callee::Static(c), .. } => if d == v {
                Some(c)
            } else {
                call_defining(f, v, k + 1)
            },
            _ => call_defining(f, v, k + 1),
        }
    }
}

/// The call result that `v` is, if the first instruction at or after `k` that defines it is
/// a static call or takes a component of one.
pub open spec fn result_defining(f: &Function, v: ValueId, k: int) -> Option<(FuncId, u32)>
    decreases f.sites().len() - k,
{
    if k < 0 || k >= f.sites().len() {
        None
    } else {
        match f.op_at(f.sites()[k]) {
            Op::Call { dst: Some(d), callee: Callee::Static(c), .. } => if d == v {
                Some((c, 0))
            } else {
                result_defining(f, v, k + 1)
            },
            Op::Extract { dst, tuple, index } => if dst == v {
                match call_defining(f, canonical(f, tuple), 0) {
                    Some(c) => Some((c, index)),
                    None => None,
                }
            } else {
                result_defining(f, v, k + 1)
            },
            _ => result_defining(f, v, k + 1),
        }
    }
}

/// The callee and the index of the call result that `v` is a copy of.
pub open spec fn call_result(f: &Function, v: ValueId) -> Option<(FuncId, u32)> {
    result_defining(f, canonical(f, v), 0)
}

fn find_call(f: &Function, sites: &Vec<Site>, v: ValueId) -> (r: Option<FuncId>)
    requires
        sites@ == f.sites(),
        forall|k: int| 0 <= k < sites@.len() ==> f.has_site(#[trigger] sites@[k]),
    ensures
        r == call_defining(f, v, 0),
{
    let mut k: usize = 0;
    while k < sites.len()
        invariant
            k <= sites@.len(),
            sites@ == f.sites(),
            forall|k: int| 0 <= k < sites@.len() ==> f.has_site(#[trigger] sites@[k]),
            call_defining(f, v, 0) == call_defining(f, v, k as int),
        decreases sites@.len() - k,
    {
        if let Op::Call { dst: Some(d), callee: Callee::Static(c), .. } = f.op(sites[k]) {
            if *d == v {
                return Some(*c);
            }
        }
        k += 1;
    }
    None
}

/// Which result of which static call `v` is: the call's own value, or a component of its
/// tuple. `None` for anything else.
pub fn call_result_of(f: &Function, v: ValueId) -> (r: Option<(FuncId, u32)>)
    ensures
        r == call_result(f, v),
{
    let cur = canonical_value(f, v);
    let sites = f.all_sites();
    let mut k: usize = 0;
    while k < sites.len()
        invariant
            k <= sites@.len(),
            sites@ == f.sites(),
            forall|k: int| 0 <= k < sites@.len() ==> f.has_site(#[trigger] sites@[k]),
            result_defining(f, cur, 0) == result_defining(f, cur, k as int),
            cur == canonical(f, v),
        decreases sites@.len() - k,
    {
        match f.op(sites[k]) {
            Op::Call { dst: Some(d), callee: Callee::Static(c), .. } => {
                if *d == cur {
                    return Some((*c, 0));
                }
            },
            Op::Extract { dst, tuple, index } => {
                if *dst == cur {
                    let t = canonical_value(f, *tuple);
                    return match find_call(f, &sites, t) {
                        Some(c) => Some((c, *index)),
                        None => None,
                    };
                }
            },
            _ => {},
        }
        k += 1;
    }
    None
}

} // verus!
