//! The bounds checker: indices and slice bounds out of range, division by zero, and integer
//! conversions and divisions that overflow.

use vstd::prelude::*;
use crate::checker::{
    accept, accepted, candidate_queries, candidates_v, list_queries, obligations_v, queries_v,
    Candidate, CandidateV, Checker, Obligation, ObligationV,
};
use crate::encode::{encode_func, encoding, opt_seq, EncodedFunc, EncodedV};
use crate::ir::{
    clone_pos, BinOpKind, FuncId, Function, MakeKind, Op, Program, Site, ValueId, ValueKind,
};
use crate::query::{Query, QueryV, SatResult};
use crate::shared::{
    call_site_obligations, calls_obligations, clause_terms, over_params, params_only,
    preconditions_of, propagate_requires, propagated_calls, Deref,
};
use crate::summary::{clauses, Clause, ClauseV, Formula, Provenance, SummaryTable, TableV};
use crate::term::{
    lit_limit, mk_and, mk_cap, mk_compare, mk_eq, mk_len, mk_not, mk_or, opt_term, terms, BvCmpOp,
    Term, TermV,
};
use crate::types::{array_len, array_len_of, int_repr, int_repr_of, int_widths};

verus! {

/// Finds indices out of range, divisions by zero and overflows.
#[derive(Debug, Clone, Copy, PartialEq, Eq)]
pub struct BoundsChecker;

// ---- Violations ----

/// `i < 0` or `len <= i`, both signed.
pub open spec fn index_violated(i: TermV, len: TermV) -> Option<TermV> {
    match (mk_compare(BvCmpOp::Slt, i, TermV::BvLit(64, 0)), mk_compare(BvCmpOp::Sle, len, i)) {
        (Some(neg), Some(over)) => mk_or(seq![neg, over]),
        _ => None,
    }
}

/// `low < 0`, `high < low`, `cap < high`, or `cap < max` if there is a maximum.
pub open spec fn slice_violated(low: TermV, high: TermV, cap: TermV, max: Option<TermV>) -> Option<TermV> {
    match (
        mk_compare(BvCmpOp::Slt, low, TermV::BvLit(64, 0)),
        mk_compare(BvCmpOp::Slt, high, low),
        mk_compare(BvCmpOp::Slt, cap, high),
    ) {
        (Some(a), Some(b), Some(c)) => match max {
            Some(m) => match mk_compare(BvCmpOp::Slt, cap, m) {
                Some(d) => mk_or(seq![a, b, c, d]),
                None => None,
            },
            None => mk_or(seq![a, b, c]),
        },
        _ => None,
    }
}

fn index_violation(i: Term, len: Term) -> (r: Option<Term>)
    ensures
        opt_term(r) == index_violated(i@, len@),
{
    let neg = Term::bv_compare(BvCmpOp::Slt, i.dup(), Term::bv_lit(64, 0));
    let over = Term::bv_compare(BvCmpOp::Sle, len, i);
    match (neg, over) {
        (Some(a), Some(b)) => Term::or2(a, b),
        _ => None,
    }
}

/// That the bounds of a slice expression are out of range; `None` where they are no 64-bit
/// integers.
pub fn slice_violation(low: Term, high: Term, cap: Term, max: Option<Term>) -> (r: Option<Term>)
    ensures
        opt_term(r) == slice_violated(low@, high@, cap@, opt_term(max)),
{
    let a = Term::bv_compare(BvCmpOp::Slt, low.dup(), Term::bv_lit(64, 0));
    let b = Term::bv_compare(BvCmpOp::Slt, high.dup(), low);
    let c = Term::bv_compare(BvCmpOp::Slt, cap.dup(), high);
    match (a, b, c) {
        (Some(a), Some(b), Some(c)) => {
            let ghost s3 = seq![a@, b@, c@];
            let mut parts: Vec<Term> = Vec::new();
            parts.push(a);
            parts.push(b);
            parts.push(c);
            assert(terms(parts@) =~= s3);
            match max {
                Some(m) => match Term::bv_compare(BvCmpOp::Slt, cap, m) {
                    Some(d) => {
                        let ghost s4 = seq![s3[0], s3[1], s3[2], d@];
                        parts.push(d);
                        assert(terms(parts@) =~= s4);
                        Term::or(parts)
                    },
                    None => None,
                },
                None => Term::or(parts),
            }
        },
        _ => None,
    }
}

/// The length of what is indexed or sliced: an array's is known from its type, also through a
/// pointer; a slice has its own.
pub open spec fn len_term(p: &Program, f: &Function, e: EncodedV, base: ValueId) -> Option<TermV> {
    match array_len_of(&p.types, f.type_of(base)) {
        Some(n) => Some(TermV::BvLit(64, n as u128)),
        None => match e.value(base) {
            Some(b) => mk_len(b),
            None => None,
        },
    }
}

/// The capacity of what is sliced; an array's is its length.
pub open spec fn cap_term(p: &Program, f: &Function, e: EncodedV, base: ValueId) -> Option<TermV> {
    match array_len_of(&p.types, f.type_of(base)) {
        Some(n) => Some(TermV::BvLit(64, n as u128)),
        None => match e.value(base) {
            Some(b) => mk_cap(b),
            None => None,
        },
    }
}

fn len_of(p: &Program, f: &Function, enc: &EncodedFunc, base: ValueId) -> (r: Option<Term>)
    requires
        enc.wf(),
    ensures
        opt_term(r) == len_term(p, f, enc@, base),
{
    match array_len(&p.types, f.value_type(base)) {
        Some(n) => Some(Term::bv_lit(64, n as u128)),
        None => match enc.value_term(base) {
            Some(b) => Term::seq_len(b),
            None => None,
        },
    }
}

fn cap_of(p: &Program, f: &Function, enc: &EncodedFunc, base: ValueId) -> (r: Option<Term>)
    requires
        enc.wf(),
    ensures
        opt_term(r) == cap_term(p, f, enc@, base),
{
    match array_len(&p.types, f.value_type(base)) {
        Some(n) => Some(Term::bv_lit(64, n as u128)),
        None => match enc.value_term(base) {
            Some(b) => Term::seq_cap(b),
            None => None,
        },
    }
}

// ---- Sites ----

/// What can go wrong at a site.
#[derive(Debug, Clone, Copy, PartialEq, Eq, Structural)]
pub enum Fault {
    Bounds,
    DivZero,
    Overflow,
}

impl Fault {
    /// The tag of clauses and obligations.
    pub open spec fn tag_of(self) -> Seq<char> {
        match self {
            Fault::Bounds => "bounds"@,
            Fault::DivZero => "div-zero"@,
            Fault::Overflow => "overflow"@,
        }
    }

    /// The tag of clauses and obligations.
    pub fn tag(self) -> (r: &'static str)
        ensures
            r@ == self.tag_of(),
    {
        match self {
            Fault::Bounds => "bounds",
            Fault::DivZero => "div-zero",
            Fault::Overflow => "overflow",
        }
    }

    /// What is reported.
    pub open spec fn described(self) -> Seq<char> {
        match self {
            Fault::Bounds => "index/slice out of bounds"@,
            Fault::DivZero => "division by zero"@,
            Fault::Overflow => "integer overflow"@,
        }
    }

    /// What is reported.
    pub fn description(self) -> (r: &'static str)
        ensures
            r@ == self.described(),
    {
        match self {
            Fault::Bounds => "index/slice out of bounds",
            Fault::DivZero => "division by zero",
            Fault::Overflow => "integer overflow",
        }
    }
}

/// An instruction that can go wrong: when it does, and the values that decide.
#[derive(Debug, PartialEq, Eq)]
pub struct FaultSite {
    pub site: Site,
    pub fault: Fault,
    pub violation: Term,
    pub values: Vec<ValueId>,
}

/// The model of a [`FaultSite`].
pub struct FaultSiteV {
    pub site: Site,
    pub fault: Fault,
    pub violation: TermV,
    pub values: Seq<ValueId>,
}

impl View for FaultSite {
    type V = FaultSiteV;

    open spec fn view(&self) -> FaultSiteV {
        FaultSiteV {
            site: self.site,
            fault: self.fault,
            violation: self.violation@,
            values: self.values@,
        }
    }
}

/// The models of sites.
pub open spec fn sites_v(v: Seq<FaultSite>) -> Seq<FaultSiteV> {
    Seq::new(v.len(), |i: int| v[i]@)
}

/// The term of an optional bound, or the default; `None` if the bound is there but not
/// modelled.
pub open spec fn bound_or(e: EncodedV, v: Option<ValueId>, default: Option<TermV>) -> Option<TermV> {
    match v {
        Some(x) => e.value(x),
        None => default,
    }
}

/// What can go wrong with an index or slice expression at `s`.
pub open spec fn bounds_at(p: &Program, f: &Function, e: EncodedV, s: Site) -> Option<FaultSiteV> {
    match f.op_at(s) {
        Op::IndexAddr { base, index, .. } => index_at(p, f, e, s, base, index),
        Op::Index { base, index, .. } => index_at(p, f, e, s, base, index),
        Op::Slice { base, low, high, max, .. } => match (
            cap_term(p, f, e, base),
            bound_or(e, low, Some(TermV::BvLit(64, 0))),
            bound_or(e, high, len_term(p, f, e, base)),
        ) {
            (Some(cap), Some(lo), Some(hi)) => if max is Some && e.value(max.unwrap()) is None {
                None
            } else {
                match slice_violated(lo, hi, cap, bound_or(e, max, None)) {
                    Some(v) => Some(
                        FaultSiteV {
                            site: s,
                            fault: Fault::Bounds,
                            violation: v,
                            values: seq![base] + opt_seq(low) + opt_seq(high) + opt_seq(max),
                        },
                    ),
                    None => None,
                }
            },
            _ => None,
        },
        _ => None,
    }
}

/// What can go wrong when `base` is indexed with `index` at `s`.
pub open spec fn index_at(
    p: &Program,
    f: &Function,
    e: EncodedV,
    s: Site,
    base: ValueId,
    index: ValueId,
) -> Option<FaultSiteV> {
    match (e.value(index), len_term(p, f, e, base)) {
        (Some(i), Some(len)) => match index_violated(i, len) {
            Some(v) => Some(
                FaultSiteV { site: s, fault: Fault::Bounds, violation: v, values: seq![index, base] },
            ),
            None => None,
        },
        _ => None,
    }
}

/// The sites of index and slice expressions among the first `k` instructions.
pub open spec fn bounds_upto(p: &Program, f: &Function, e: EncodedV, k: int) -> Seq<FaultSiteV>
    decreases k,
{
    if k <= 0 {
        Seq::empty()
    } else {
        bounds_upto(p, f, e, k - 1) + opt_seq(bounds_at(p, f, e, f.sites()[k - 1]))
    }
}

/// The division at `s` by a zero `rhs`.
pub open spec fn zero_at(e: EncodedV, s: Site, w: u32, rhs: ValueId, r: TermV) -> Option<FaultSiteV> {
    match mk_eq(r, TermV::BvLit(w, 0)) {
        Some(v) => Some(
            FaultSiteV { site: s, fault: Fault::DivZero, violation: v, values: seq![rhs] },
        ),
        None => None,
    }
}

/// The division at `s` of the least number by -1.
pub open spec fn min_at(
    s: Site,
    w: u32,
    lhs: ValueId,
    rhs: ValueId,
    l: TermV,
    r: TermV,
) -> Option<FaultSiteV> {
    match (
        mk_eq(l, TermV::BvLit(w, (lit_limit(w) / 2) as u128)),
        mk_eq(r, TermV::BvLit(w, (lit_limit(w) - 1) as u128)),
    ) {
        (Some(a), Some(b)) => match mk_and(seq![a, b]) {
            Some(v) => Some(
                FaultSiteV { site: s, fault: Fault::Overflow, violation: v, values: seq![lhs, rhs] },
            ),
            None => None,
        },
        _ => None,
    }
}

/// What can go wrong with a division at `s`: the divisor is zero, or a signed quotient does
/// not fit. The remainder always fits.
pub open spec fn divrem_at(p: &Program, f: &Function, e: EncodedV, s: Site) -> Seq<FaultSiteV> {
    match f.op_at(s) {
        Op::BinOp { kind, lhs, rhs, .. } => if kind == BinOpKind::Div || kind == BinOpKind::Rem {
            match (int_repr_of(&p.types, f.type_of(lhs)), e.value(lhs), e.value(rhs)) {
                (Some((w, signed)), Some(l), Some(r)) => opt_seq(zero_at(e, s, w, rhs, r)) + (if signed
                    && kind == BinOpKind::Div {
                    opt_seq(min_at(s, w, lhs, rhs, l, r))
                } else {
                    Seq::empty()
                }),
                _ => Seq::empty(),
            }
        } else {
            Seq::empty()
        },
        _ => Seq::empty(),
    }
}

/// The sites of divisions among the first `k` instructions.
pub open spec fn divrem_upto(p: &Program, f: &Function, e: EncodedV, k: int) -> Seq<FaultSiteV>
    decreases k,
{
    if k <= 0 {
        Seq::empty()
    } else {
        divrem_upto(p, f, e, k - 1) + divrem_at(p, f, e, f.sites()[k - 1])
    }
}

/// The greatest number of an integer type of width `wd`, as a literal of width `ws`.
pub open spec fn greatest(ws: u32, wd: u32, signed: bool) -> TermV {
    TermV::BvLit(ws, (if signed { lit_limit(wd) / 2 - 1 } else { lit_limit(wd) - 1 }) as u128)
}

/// The least number of an integer type of width `wd`, sign-extended to width `ws`.
pub open spec fn least(ws: u32, wd: u32, signed: bool) -> TermV {
    TermV::BvLit(ws, (if signed { lit_limit(ws) - lit_limit(wd) / 2 } else { 0 }) as u128)
}

/// When the conversion of `x` from width `ws` to width `wd` overflows: `x` is below the least
/// or above the greatest number of the destination. `ss` and `sd` tell whether source and
/// destination are signed. An unsigned number is below nothing, and a signed one is never
/// above the greatest unsigned number of its own width.
pub open spec fn convert_violated(ws: u32, ss: bool, wd: u32, sd: bool, x: TermV) -> Option<TermV> {
    if !ss {
        mk_compare(BvCmpOp::Ult, greatest(ws, wd, sd), x)
    } else {
        let below = mk_compare(BvCmpOp::Slt, x, least(ws, wd, sd));
        if wd == ws && !sd {
            below
        } else {
            match (below, mk_compare(BvCmpOp::Slt, greatest(ws, wd, sd), x)) {
                (Some(a), Some(b)) => mk_or(seq![a, b]),
                _ => None,
            }
        }
    }
}

/// The number that the bits of a literal of width `w` stand for.
pub open spec fn number_of(t: TermV, w: u32, signed: bool) -> int {
    let bits = t->BvLit_1 as int;
    if signed && bits >= lit_limit(w) / 2 {
        bits - lit_limit(w)
    } else {
        bits
    }
}

/// The bounds that a converted number is held to, read as numbers of the source type, are the
/// least and the greatest number of the destination type.
pub proof fn conversions_keep_the_destination_range(ws: u32, ss: bool, wd: u32, sd: bool)
    requires
        ws == 8 || ws == 16 || ws == 32 || ws == 64,
        wd == 8 || wd == 16 || wd == 32 || wd == 64,
        wd < ws || (wd == ws && ss != sd),
    ensures
        wd < ws || !ss ==> number_of(greatest(ws, wd, sd), ws, ss) == (if sd {
            lit_limit(wd) / 2 - 1
        } else {
            lit_limit(wd) - 1
        }),
        ss ==> number_of(least(ws, wd, sd), ws, ss) == (if sd { -(lit_limit(wd) / 2) } else { 0 }),
{
}

/// What can go wrong with a conversion at `s`: it narrows, or changes signedness at the same
/// width.
pub open spec fn convert_at(p: &Program, f: &Function, e: EncodedV, s: Site) -> Option<FaultSiteV> {
    match f.op_at(s) {
        Op::Convert { dst, src } => match (
            int_repr_of(&p.types, f.type_of(src)),
            int_repr_of(&p.types, f.type_of(dst)),
            e.value(src),
        ) {
            (Some((ws, ss)), Some((wd, sd)), Some(x)) => if wd < ws || (wd == ws && sd != ss) {
                match convert_violated(ws, ss, wd, sd, x) {
                    Some(v) => Some(
                        FaultSiteV { site: s, fault: Fault::Overflow, violation: v, values: seq![src] },
                    ),
                    None => None,
                }
            } else {
                None
            },
            _ => None,
        },
        _ => None,
    }
}

/// The sites of conversions among the first `k` instructions.
pub open spec fn convert_upto(p: &Program, f: &Function, e: EncodedV, k: int) -> Seq<FaultSiteV>
    decreases k,
{
    if k <= 0 {
        Seq::empty()
    } else {
        convert_upto(p, f, e, k - 1) + opt_seq(convert_at(p, f, e, f.sites()[k - 1]))
    }
}

/// Everything that can go wrong in `f`.
pub open spec fn fault_sites(p: &Program, f: &Function, e: EncodedV) -> Seq<FaultSiteV> {
    let n = f.sites().len() as int;
    bounds_upto(p, f, e, n) + divrem_upto(p, f, e, n) + convert_upto(p, f, e, n)
}

fn make_site(site: Site, fault: Fault, violation: Term, values: Vec<ValueId>) -> (r: FaultSite)
    ensures
        r@ == (FaultSiteV { site, fault, violation: violation@, values: values@ }),
{
    FaultSite { site, fault, violation, values }
}

fn index_site(p: &Program, f: &Function, enc: &EncodedFunc, s: Site, base: ValueId, index: ValueId) -> (r: Option<
    FaultSite,
>)
    requires
        enc.wf(),
    ensures
        match r {
            Some(x) => index_at(p, f, enc@, s, base, index) == Some(x@),
            None => index_at(p, f, enc@, s, base, index) is None,
        },
{
    match (enc.value_term(index), len_of(p, f, enc, base)) {
        (Some(i), Some(len)) => match index_violation(i, len) {
            Some(v) => {
                let mut values: Vec<ValueId> = Vec::new();
                values.push(index);
                values.push(base);
                assert(values@ =~= seq![index, base]);
                Some(make_site(s, Fault::Bounds, v, values))
            },
            None => None,
        },
        _ => None,
    }
}

fn slice_site(
    p: &Program,
    f: &Function,
    enc: &EncodedFunc,
    s: Site,
    base: ValueId,
    low: Option<ValueId>,
    high: Option<ValueId>,
    max: Option<ValueId>,
) -> (r: Option<FaultSite>)
    requires
        enc.wf(),
        f.op_at(s) matches Op::Slice { base: b, low: l, high: h, max: m, .. } && b == base && l == low
            && h == high && m == max,
    ensures
        match r {
            Some(x) => bounds_at(p, f, enc@, s) == Some(x@),
            None => bounds_at(p, f, enc@, s) is None,
        },
{
    let mut values: Vec<ValueId> = Vec::new();
    values.push(base);
    let lo = match low {
        Some(l) => {
            values.push(l);
            enc.value_term(l)
        },
        None => Some(Term::bv_lit(64, 0)),
    };
    let hi = match high {
        Some(h) => {
            values.push(h);
            enc.value_term(h)
        },
        None => len_of(p, f, enc, base),
    };
    let max_t = match max {
        Some(m) => {
            values.push(m);
            match enc.value_term(m) {
                Some(t) => Some(t),
                None => {
                    return None;
                },
            }
        },
        None => None,
    };
    assert(values@ =~= seq![base] + opt_seq(low) + opt_seq(high) + opt_seq(max));
    match (cap_of(p, f, enc, base), lo, hi) {
        (Some(cap), Some(lo), Some(hi)) => match slice_violation(lo, hi, cap, max_t) {
            Some(v) => Some(make_site(s, Fault::Bounds, v, values)),
            None => None,
        },
        _ => None,
    }
}

fn bounds_site(p: &Program, f: &Function, enc: &EncodedFunc, s: Site) -> (r: Option<FaultSite>)
    requires
        enc.wf(),
        f.has_site(s),
    ensures
        match r {
            Some(x) => bounds_at(p, f, enc@, s) == Some(x@),
            None => bounds_at(p, f, enc@, s) is None,
        },
{
    match f.op(s) {
        Op::IndexAddr { base, index, .. } => index_site(p, f, enc, s, *base, *index),
        Op::Index { base, index, .. } => index_site(p, f, enc, s, *base, *index),
        Op::Slice { base, low, high, max, .. } => slice_site(p, f, enc, s, *base, *low, *high, *max),
        _ => None,
    }
}

/// The index and slice expressions that can go out of bounds.
fn bounds_sites(p: &Program, f: &Function, enc: &EncodedFunc) -> (r: Vec<FaultSite>)
    requires
        enc.wf(),
    ensures
        sites_v(r@) == bounds_upto(p, f, enc@, f.sites().len() as int),
        all_here(f, r@),
{
    let sites = f.all_sites();
    let mut out: Vec<FaultSite> = Vec::new();
    assert(sites_v(out@) =~= Seq::<FaultSiteV>::empty());
    let mut k: usize = 0;
    while k < sites.len()
        invariant
            k <= sites@.len(),
            sites@ == f.sites(),
            forall|k: int| 0 <= k < sites@.len() ==> f.has_site(#[trigger] sites@[k]),
            enc.wf(),
            sites_v(out@) == bounds_upto(p, f, enc@, k as int),
            all_here(f, out@),
        decreases sites@.len() - k,
    {
        let ghost before = out@;
        match bounds_site(p, f, enc, sites[k]) {
            Some(x) => {
                let ghost xv = x@;
                out.push(x);
                assert(sites_v(out@) =~= sites_v(before) + seq![xv]);
            },
            None => {
                assert(sites_v(out@) =~= sites_v(before) + Seq::<FaultSiteV>::empty());
            },
        }
        k += 1;
    }
    out
}

/// Whether all sites are instructions of `f`.
pub open spec fn all_here(f: &Function, v: Seq<FaultSite>) -> bool {
    forall|i: int| 0 <= i < v.len() ==> f.has_site((#[trigger] v[i]).site)
}

/// The first number that `w` bits cannot hold.
fn limit(w: u32) -> (r: u128)
    requires
        w == 8 || w == 16 || w == 32 || w == 64,
    ensures
        r == lit_limit(w),
{
    if w == 8 {
        0x100
    } else if w == 16 {
        0x1_0000
    } else if w == 32 {
        0x1_0000_0000
    } else {
        0x1_0000_0000_0000_0000
    }
}

fn divrem_site(p: &Program, f: &Function, enc: &EncodedFunc, s: Site, out: &mut Vec<FaultSite>)
    requires
        enc.wf(),
        f.has_site(s),
        all_here(f, old(out)@),
    ensures
        sites_v(final(out)@) == sites_v(old(out)@) + divrem_at(p, f, enc@, s),
        all_here(f, final(out)@),
{
    let ghost start = sites_v(out@);
    assert(start + Seq::<FaultSiteV>::empty() =~= start);
    let (kind, lhs, rhs) = match f.op(s) {
        Op::BinOp { kind, lhs, rhs, .. } => (*kind, *lhs, *rhs),
        _ => {
            return;
        },
    };
    if kind != BinOpKind::Div && kind != BinOpKind::Rem {
        return;
    }
    match (int_repr(&p.types, f.value_type(lhs)), enc.value_term(lhs), enc.value_term(rhs)) {
        (Some((w, signed)), Some(l), Some(r)) => {
            proof {
                int_widths(&p.types, f.type_of(lhs));
            }
            let ghost zero = zero_at(enc@, s, w, rhs, r@);
            let ghost before = out@;
            if let Some(v) = Term::eq(r.dup(), Term::bv_lit(w, 0)) {
                let mut values: Vec<ValueId> = Vec::new();
                values.push(rhs);
                assert(values@ =~= seq![rhs]);
                out.push(make_site(s, Fault::DivZero, v, values));
            }
            assert(sites_v(out@) =~= start + opt_seq(zero));
            if signed && kind == BinOpKind::Div {
                let ghost least = min_at(s, w, lhs, rhs, l@, r@);
                let ghost before = sites_v(out@);
                let a = Term::eq(l, Term::bv_lit(w, limit(w) / 2));
                let b = Term::eq(r, Term::bv_lit(w, limit(w) - 1));
                if let (Some(a), Some(b)) = (a, b) {
                    if let Some(v) = Term::and2(a, b) {
                        let mut values: Vec<ValueId> = Vec::new();
                        values.push(lhs);
                        values.push(rhs);
                        assert(values@ =~= seq![lhs, rhs]);
                        out.push(make_site(s, Fault::Overflow, v, values));
                    }
                }
                assert(sites_v(out@) =~= before + opt_seq(least));
                assert(sites_v(out@) =~= start + (opt_seq(zero) + opt_seq(least)));
            } else {
                assert(sites_v(out@) =~= start + (opt_seq(zero) + Seq::<FaultSiteV>::empty()));
            }
        },
        _ => {},
    }
}

/// The divisions that can go wrong.
fn divrem_sites(p: &Program, f: &Function, enc: &EncodedFunc) -> (r: Vec<FaultSite>)
    requires
        enc.wf(),
    ensures
        sites_v(r@) == divrem_upto(p, f, enc@, f.sites().len() as int),
        all_here(f, r@),
{
    let sites = f.all_sites();
    let mut out: Vec<FaultSite> = Vec::new();
    assert(sites_v(out@) =~= Seq::<FaultSiteV>::empty());
    let mut k: usize = 0;
    while k < sites.len()
        invariant
            k <= sites@.len(),
            sites@ == f.sites(),
            forall|k: int| 0 <= k < sites@.len() ==> f.has_site(#[trigger] sites@[k]),
            enc.wf(),
            sites_v(out@) == divrem_upto(p, f, enc@, k as int),
            all_here(f, out@),
        decreases sites@.len() - k,
    {
        divrem_site(p, f, enc, sites[k], &mut out);
        k += 1;
    }
    out
}

/// When the conversion of `x` from width `ws` to width `wd` overflows.
pub fn convert_violation(ws: u32, ss: bool, wd: u32, sd: bool, x: Term) -> (r: Option<Term>)
    requires
        ws == 8 || ws == 16 || ws == 32 || ws == 64,
        wd == 8 || wd == 16 || wd == 32 || wd == 64,
        wd <= ws,
    ensures
        opt_term(r) == convert_violated(ws, ss, wd, sd, x@),
{
    let half = limit(wd) / 2;
    let top = if sd { half - 1 } else { limit(wd) - 1 };
    if !ss {
        return Term::bv_compare(BvCmpOp::Ult, Term::bv_lit(ws, top), x);
    }
    let bottom = if sd { limit(ws) - half } else { 0 };
    let below = Term::bv_compare(BvCmpOp::Slt, x.dup(), Term::bv_lit(ws, bottom));
    if wd == ws && !sd {
        return below;
    }
    match (below, Term::bv_compare(BvCmpOp::Slt, Term::bv_lit(ws, top), x)) {
        (Some(a), Some(b)) => Term::or2(a, b),
        _ => None,
    }
}

fn convert_site(p: &Program, f: &Function, enc: &EncodedFunc, s: Site) -> (r: Option<FaultSite>)
    requires
        enc.wf(),
        f.has_site(s),
    ensures
        match r {
            Some(x) => convert_at(p, f, enc@, s) == Some(x@),
            None => convert_at(p, f, enc@, s) is None,
        },
{
    let (dst, src) = match f.op(s) {
        Op::Convert { dst, src } => (*dst, *src),
        _ => {
            return None;
        },
    };
    match (
        int_repr(&p.types, f.value_type(src)),
        int_repr(&p.types, f.value_type(dst)),
        enc.value_term(src),
    ) {
        (Some((ws, ss)), Some((wd, sd)), Some(x)) => {
            proof {
                int_widths(&p.types, f.type_of(src));
                int_widths(&p.types, f.type_of(dst));
            }
            if wd < ws || (wd == ws && sd != ss) {
                match convert_violation(ws, ss, wd, sd, x) {
                    Some(v) => {
                        let mut values: Vec<ValueId> = Vec::new();
                        values.push(src);
                        assert(values@ =~= seq![src]);
                        Some(make_site(s, Fault::Overflow, v, values))
                    },
                    None => None,
                }
            } else {
                None
            }
        },
        _ => None,
    }
}

/// The conversions that can go wrong.
fn convert_sites(p: &Program, f: &Function, enc: &EncodedFunc) -> (r: Vec<FaultSite>)
    requires
        enc.wf(),
    ensures
        sites_v(r@) == convert_upto(p, f, enc@, f.sites().len() as int),
        all_here(f, r@),
{
    let sites = f.all_sites();
    let mut out: Vec<FaultSite> = Vec::new();
    assert(sites_v(out@) =~= Seq::<FaultSiteV>::empty());
    let mut k: usize = 0;
    while k < sites.len()
        invariant
            k <= sites@.len(),
            sites@ == f.sites(),
            forall|k: int| 0 <= k < sites@.len() ==> f.has_site(#[trigger] sites@[k]),
            enc.wf(),
            sites_v(out@) == convert_upto(p, f, enc@, k as int),
            all_here(f, out@),
        decreases sites@.len() - k,
    {
        let ghost before = out@;
        match convert_site(p, f, enc, sites[k]) {
            Some(x) => {
                let ghost xv = x@;
                out.push(x);
                assert(sites_v(out@) =~= sites_v(before) + seq![xv]);
            },
            None => {
                assert(sites_v(out@) =~= sites_v(before) + Seq::<FaultSiteV>::empty());
            },
        }
        k += 1;
    }
    out
}

/// Everything that can go wrong in `f`.
fn all_fault_sites(p: &Program, f: &Function, enc: &EncodedFunc) -> (r: Vec<FaultSite>)
    requires
        enc.wf(),
    ensures
        sites_v(r@) == fault_sites(p, f, enc@),
        all_here(f, r@),
{
    let mut out = bounds_sites(p, f, enc);
    let ghost a = out@;
    let mut div = divrem_sites(p, f, enc);
    let ghost b = div@;
    let mut conv = convert_sites(p, f, enc);
    let ghost c = conv@;
    out.append(&mut div);
    out.append(&mut conv);
    assert(sites_v(out@) =~= sites_v(a) + sites_v(b) + sites_v(c));
    assert forall|i: int| 0 <= i < out@.len() implies f.has_site((#[trigger] out@[i]).site) by {
        if i < a.len() {
            assert(out@[i] == a[i]);
        } else if i < a.len() + b.len() {
            assert(out@[i] == b[i - a.len()]);
        } else {
            assert(out@[i] == c[i - a.len() - b.len()]);
        }
    }
    out
}

// ---- Requirements ----

/// That the violation at a site does not happen, where it is a matter of the parameters.
pub open spec fn site_candidate(e: EncodedV, x: FaultSiteV) -> Option<CandidateV> {
    if over_params(x.violation) {
        match mk_not(x.violation) {
            Some(n) => Some(
                CandidateV {
                    clause: ClauseV {
                        tag: x.fault.tag_of(),
                        term: n,
                        provenance: Provenance::Inferred,
                    },
                    query: e.reach(x.site.0 as int, seq![x.violation]),
                },
            ),
            None => None,
        }
    } else {
        None
    }
}

/// The candidates of the first `n` sites.
pub open spec fn site_candidates(e: EncodedV, xs: Seq<FaultSiteV>, n: int) -> Seq<CandidateV>
    decreases n,
{
    if n <= 0 {
        Seq::empty()
    } else {
        site_candidates(e, xs, n - 1) + opt_seq(site_candidate(e, xs[n - 1]))
    }
}

/// The encoding that the checker works on: callees guarantee nothing.
pub open spec fn bounds_encoding(p: &Program, f: FuncId) -> Option<(Function, EncodedV)> {
    match (p.body(f), encoding(p, f)) {
        (Some(func), Ok(e)) => Some((func, e)),
        _ => None,
    }
}

/// The requirements of callees with one tag.
pub open spec fn tag_candidates(func: &Function, e: EncodedV, tag: Seq<char>, t: TableV) -> Seq<
    CandidateV,
> {
    propagated_calls(func, e, tag, t, Seq::empty(), func.sites().len() as int)
}

/// All candidates for the requirements of `f`: its own sites, then what its callees require.
pub open spec fn bounds_candidates(p: &Program, f: FuncId, t: TableV) -> Seq<CandidateV> {
    match bounds_encoding(p, f) {
        Some((func, e)) => {
            let xs = fault_sites(p, &func, e);
            site_candidates(e, xs, xs.len() as int) + tag_candidates(&func, e, "bounds"@, t)
                + tag_candidates(&func, e, "div-zero"@, t) + tag_candidates(&func, e, "overflow"@, t)
        },
        None => Seq::empty(),
    }
}

fn own_candidates(enc: &EncodedFunc, xs: &Vec<FaultSite>) -> (r: Vec<Candidate>)
    ensures
        candidates_v(r@) == site_candidates(enc@, sites_v(xs@), xs@.len() as int),
{
    let mut out: Vec<Candidate> = Vec::new();
    let ghost xv = sites_v(xs@);
    assert(candidates_v(out@) =~= Seq::<CandidateV>::empty());
    let mut i: usize = 0;
    while i < xs.len()
        invariant
            i <= xs@.len(),
            xv == sites_v(xs@),
            candidates_v(out@) == site_candidates(enc@, xv, i as int),
        decreases xs@.len() - i,
    {
        let x = &xs[i];
        assert(xv[i as int] == x@);
        let ghost before = out@;
        let ghost want = site_candidate(enc@, xv[i as int]);
        let mut found: Option<Candidate> = None;
        if params_only(&x.violation) {
            if let Some(n) = Term::not(x.violation.dup()) {
                let mut extra: Vec<Term> = Vec::new();
                extra.push(x.violation.dup());
                assert(terms(extra@) =~= seq![x.violation@]);
                found = Some(
                    Candidate {
                        clause: Clause {
                            tag: x.fault.tag().to_string(),
                            formula: Formula { term: n },
                            provenance: Provenance::Inferred,
                        },
                        query: enc.reach_query(x.site.0, extra),
                    },
                );
            }
        }
        match found {
            Some(c) => {
                assert(want == Some(c@));
                let ghost cv = c@;
                out.push(c);
                assert(candidates_v(out@) =~= candidates_v(before) + seq![cv]);
            },
            None => {
                assert(want is None);
                assert(candidates_v(out@) =~= candidates_v(before) + Seq::<CandidateV>::empty());
            },
        }
        i += 1;
    }
    out
}

fn all_candidates(p: &Program, f: FuncId, t: &SummaryTable) -> (r: Vec<Candidate>)
    requires
        t.wf(),
    ensures
        candidates_v(r@) == bounds_candidates(p, f, t@),
{
    let none: Vec<Candidate> = Vec::new();
    assert(candidates_v(none@) =~= Seq::<CandidateV>::empty());
    let func = match p.func(f) {
        Some(func) => func,
        None => {
            return none;
        },
    };
    let enc = match encode_func(p, f) {
        Ok(enc) => enc,
        Err(_) => {
            return none;
        },
    };
    let xs = all_fault_sites(p, func, &enc);
    assert(sites_v(xs@).len() == xs@.len());
    let mut out = own_candidates(&enc, &xs);
    let ds: Vec<Deref> = Vec::new();
    let idom: Vec<Option<usize>> = Vec::new();
    assert(ds@ =~= Seq::<Deref>::empty());
    propagate_requires(func, &enc, "bounds", t, &ds, &idom, &mut out);
    propagate_requires(func, &enc, "div-zero", t, &ds, &idom, &mut out);
    propagate_requires(func, &enc, "overflow", t, &ds, &idom, &mut out);
    out
}

// ---- Obligations ----

/// How many slice expressions are followed.
pub const EXPRESSIBLE_MAX_DEPTH: u32 = 16;

/// Whether `v` is a parameter or a constant.
pub open spec fn ground(f: &Function, v: ValueId) -> bool {
    f.kind_of(v) is Param || f.kind_of(v) is Const
}

/// Whether an optional operand is a parameter or a constant, or missing.
pub open spec fn opt_ground(f: &Function, v: Option<ValueId>) -> bool {
    v matches Some(x) ==> ground(f, x)
}

/// Whether `op` makes `v` as a slice.
pub open spec fn makes_slice(op: Op, v: ValueId) -> bool {
    match op {
        Op::Make { dst, kind, .. } => kind == MakeKind::Slice && dst == v,
        Op::Slice { dst, .. } => dst == v,
        _ => false,
    }
}

/// The first instruction at or after `k` that makes `v` as a slice.
pub open spec fn slice_maker(f: &Function, v: ValueId, k: int) -> Option<Site>
    decreases f.sites().len() - k,
{
    if k < 0 || k >= f.sites().len() {
        None
    } else if makes_slice(f.op_at(f.sites()[k]), v) {
        Some(f.sites()[k])
    } else {
        slice_maker(f, v, k + 1)
    }
}

/// Whether every operand of `make` is a parameter or a constant; value 0 is a missing one.
pub open spec fn args_ground(f: &Function, args: Seq<ValueId>) -> bool {
    forall|i: int| 0 <= i < args.len() ==> args[i] == ValueId(0) || ground(f, #[trigger] args[i])
}

/// Whether what is known of `v` is enough to report: it is a parameter or a constant, or a
/// slice made of such, at most `depth` slice expressions deep. The base of a slice expression
/// does not matter if its length is known from its type.
pub open spec fn expressible_at(p: &Program, f: &Function, v: ValueId, depth: nat) -> bool
    decreases depth,
{
    ground(f, v) || (depth > 0 && match slice_maker(f, v, 0) {
        Some(s) => match f.op_at(s) {
            Op::Make { args, .. } => args_ground(f, args@),
            Op::Slice { base, low, high, max, .. } => (array_len_of(&p.types, f.type_of(base)) is Some
                || expressible_at(p, f, base, (depth - 1) as nat)) && opt_ground(f, low) && opt_ground(
                f,
                high,
            ) && opt_ground(f, max),
            _ => false,
        },
        None => false,
    })
}

/// Whether what is known of all values is enough to report.
pub open spec fn all_expressible(p: &Program, f: &Function, vs: Seq<ValueId>) -> bool {
    forall|i: int|
        0 <= i < vs.len() ==> expressible_at(p, f, #[trigger] vs[i], EXPRESSIBLE_MAX_DEPTH as nat)
}

fn is_ground_or_param(f: &Function, v: ValueId) -> (r: bool)
    ensures
        r == ground(f, v),
{
    match f.value_kind(v) {
        Some(ValueKind::Param) => true,
        Some(ValueKind::Const(_)) => true,
        _ => false,
    }
}

fn opt_is_ground(f: &Function, v: Option<ValueId>) -> (r: bool)
    ensures
        r == opt_ground(f, v),
{
    match v {
        Some(x) => is_ground_or_param(f, x),
        None => true,
    }
}

fn args_are_ground(f: &Function, args: &Vec<ValueId>) -> (r: bool)
    ensures
        r == args_ground(f, args@),
{
    let mut i: usize = 0;
    while i < args.len()
        invariant
            i <= args@.len(),
            forall|j: int|
                0 <= j < i ==> args@[j] == ValueId(0) || ground(f, #[trigger] args@[j]),
        decreases args@.len() - i,
    {
        if args[i] != ValueId(0) && !is_ground_or_param(f, args[i]) {
            assert(!ground(f, args@[i as int]));
            return false;
        }
        i += 1;
    }
    true
}

fn find_slice_maker(f: &Function, v: ValueId) -> (r: Option<Site>)
    ensures
        r == slice_maker(f, v, 0),
        r matches Some(s) ==> f.has_site(s) && makes_slice(f.op_at(s), v),
{
    let sites = f.all_sites();
    let mut k: usize = 0;
    while k < sites.len()
        invariant
            k <= sites@.len(),
            sites@ == f.sites(),
            forall|k: int| 0 <= k < sites@.len() ==> f.has_site(#[trigger] sites@[k]),
            slice_maker(f, v, 0) == slice_maker(f, v, k as int),
        decreases sites@.len() - k,
    {
        let makes = match f.op(sites[k]) {
            Op::Make { dst, kind, .. } => *kind == MakeKind::Slice && *dst == v,
            Op::Slice { dst, .. } => *dst == v,
            _ => false,
        };
        if makes {
            return Some(sites[k]);
        }
        k += 1;
    }
    None
}

fn expressible_to(p: &Program, f: &Function, v: ValueId, depth: u32) -> (r: bool)
    ensures
        r == expressible_at(p, f, v, depth as nat),
    decreases depth,
{
    if is_ground_or_param(f, v) {
        return true;
    }
    if depth == 0 {
        return false;
    }
    match find_slice_maker(f, v) {
        Some(s) => match f.op(s) {
            Op::Make { args, .. } => args_are_ground(f, args),
            Op::Slice { base, low, high, max, .. } => {
                (array_len(&p.types, f.value_type(*base)).is_some() || expressible_to(
                    p,
                    f,
                    *base,
                    depth - 1,
                )) && opt_is_ground(f, *low) && opt_is_ground(f, *high) && opt_is_ground(f, *max)
            },
            _ => false,
        },
        None => false,
    }
}

fn values_expressible(p: &Program, f: &Function, vs: &Vec<ValueId>) -> (r: bool)
    ensures
        r == all_expressible(p, f, vs@),
{
    let mut i: usize = 0;
    while i < vs.len()
        invariant
            i <= vs@.len(),
            forall|j: int|
                0 <= j < i ==> expressible_at(
                    p,
                    f,
                    #[trigger] vs@[j],
                    EXPRESSIBLE_MAX_DEPTH as nat,
                ),
        decreases vs@.len() - i,
    {
        if !expressible_to(p, f, vs[i], EXPRESSIBLE_MAX_DEPTH) {
            assert(!expressible_at(p, f, vs@[i as int], EXPRESSIBLE_MAX_DEPTH as nat));
            return false;
        }
        i += 1;
    }
    true
}

/// What may go wrong at a site although the function's own requirements `pre` hold.
pub open spec fn site_obligation(
    p: &Program,
    f: FuncId,
    func: &Function,
    e: EncodedV,
    pre: Seq<TermV>,
    x: FaultSiteV,
) -> Option<ObligationV> {
    if all_expressible(p, func, x.values) {
        Some(
            ObligationV {
                tag: x.fault.tag_of(),
                message: x.fault.described() + " in "@ + p.name_of(f),
                pos: func.pos_at(x.site),
                query: e.reach(x.site.0 as int, pre.push(x.violation)),
            },
        )
    } else {
        None
    }
}

/// What may go wrong at the first `n` sites.
pub open spec fn site_obligations(
    p: &Program,
    f: FuncId,
    func: &Function,
    e: EncodedV,
    pre: Seq<TermV>,
    xs: Seq<FaultSiteV>,
    n: int,
) -> Seq<ObligationV>
    decreases n,
{
    if n <= 0 {
        Seq::empty()
    } else {
        site_obligations(p, f, func, e, pre, xs, n - 1) + opt_seq(
            site_obligation(p, f, func, e, pre, xs[n - 1]),
        )
    }
}

/// What may go wrong at calls, with one tag.
pub open spec fn tag_obligations(
    p: &Program,
    func: &Function,
    e: EncodedV,
    tag: Seq<char>,
    pre: Seq<TermV>,
    t: TableV,
) -> Seq<ObligationV> {
    calls_obligations(p, func, e, tag, pre, t, Seq::empty(), func.sites().len() as int)
}

/// What may go wrong in `f`: its own sites, then its calls.
pub open spec fn bounds_obligations(p: &Program, f: FuncId, t: TableV) -> Seq<ObligationV> {
    match bounds_encoding(p, f) {
        Some((func, e)) => {
            let xs = fault_sites(p, &func, e);
            let pre = clause_terms(t.summary(f).requires_);
            site_obligations(p, f, &func, e, pre, xs, xs.len() as int) + tag_obligations(
                p,
                &func,
                e,
                "bounds"@,
                pre,
                t,
            ) + tag_obligations(p, &func, e, "div-zero"@, pre, t) + tag_obligations(
                p,
                &func,
                e,
                "overflow"@,
                pre,
                t,
            )
        },
        None => Seq::empty(),
    }
}

fn judge_sites(
    p: &Program,
    f: FuncId,
    func: &Function,
    enc: &EncodedFunc,
    pre: &Vec<Term>,
    xs: &Vec<FaultSite>,
) -> (r: Vec<Obligation>)
    requires
        all_here(func, xs@),
    ensures
        obligations_v(r@) == site_obligations(
            p,
            f,
            func,
            enc@,
            terms(pre@),
            sites_v(xs@),
            xs@.len() as int,
        ),
{
    let mut out: Vec<Obligation> = Vec::new();
    let ghost xv = sites_v(xs@);
    assert(obligations_v(out@) =~= Seq::<ObligationV>::empty());
    let mut i: usize = 0;
    while i < xs.len()
        invariant
            i <= xs@.len(),
            all_here(func, xs@),
            xv == sites_v(xs@),
            obligations_v(out@) == site_obligations(
                p,
                f,
                func,
                enc@,
                terms(pre@),
                xv,
                i as int,
            ),
        decreases xs@.len() - i,
    {
        let x = &xs[i];
        assert(xv[i as int] == x@);
        let ghost before = out@;
        let ghost want = site_obligation(p, f, func, enc@, terms(pre@), xv[i as int]);
        if values_expressible(p, func, &x.values) {
            let mut extra = Term::dup_list(pre);
            extra.push(x.violation.dup());
            assert(terms(extra@) =~= terms(pre@).push(x.violation@));
            let mut message = x.fault.description().to_string();
            message.append(" in ");
            message.append(p.func_name(f));
            let o = Obligation {
                tag: x.fault.tag().to_string(),
                message,
                pos: clone_pos(&func.blocks[x.site.0].instrs[x.site.1].pos),
                query: enc.reach_query(x.site.0, extra),
            };
            assert(want == Some(o@));
            let ghost o_v = o@;
            out.push(o);
            assert(obligations_v(out@) =~= obligations_v(before) + seq![o_v]);
        } else {
            assert(obligations_v(out@) =~= obligations_v(before) + Seq::<ObligationV>::empty());
        }
        i += 1;
    }
    out
}

impl Checker for BoundsChecker {
    open spec fn name_of(&self) -> Seq<char> {
        "bounds"@
    }

    open spec fn version_of(&self) -> u32 {
        1
    }

    open spec fn requires_asked(&self, p: &Program, f: FuncId, t: TableV) -> Seq<QueryV> {
        candidate_queries(bounds_candidates(p, f, t))
    }

    open spec fn requires_of(
        &self,
        p: &Program,
        f: FuncId,
        t: TableV,
        verdicts: Seq<SatResult>,
    ) -> Seq<ClauseV> {
        accepted(bounds_candidates(p, f, t), verdicts, bounds_candidates(p, f, t).len() as int)
    }

    open spec fn ensures_asked(&self, p: &Program, f: FuncId, t: TableV) -> Seq<QueryV> {
        Seq::empty()
    }

    open spec fn ensures_of(
        &self,
        p: &Program,
        f: FuncId,
        t: TableV,
        verdicts: Seq<SatResult>,
    ) -> Seq<ClauseV> {
        Seq::empty()
    }

    open spec fn obligations_of(&self, p: &Program, f: FuncId, t: TableV) -> Seq<ObligationV> {
        bounds_obligations(p, f, t)
    }

    fn name(&self) -> (r: &'static str) {
        "bounds"
    }

    fn version(&self) -> (r: u32) {
        1
    }

    /// One query per site that is a matter of the parameters, then one per requirement of a
    /// callee that is.
    fn requires_queries(&self, p: &Program, f: FuncId, t: &SummaryTable) -> (r: Vec<Query>) {
        list_queries(all_candidates(p, f, t))
    }

    /// That a site does not go wrong is required where it can.
    fn infer_requires(&self, p: &Program, f: FuncId, t: &SummaryTable, verdicts: &Vec<SatResult>) -> (r: Vec<
        Clause,
    >) {
        let cs = all_candidates(p, f, t);
        assert(candidates_v(cs@).len() == cs@.len());
        accept(&cs, verdicts)
    }

    /// Nothing is asked.
    fn ensures_queries(&self, p: &Program, f: FuncId, t: &SummaryTable) -> (r: Vec<Query>) {
        let r: Vec<Query> = Vec::new();
        assert(queries_v(r@) =~= Seq::<QueryV>::empty());
        r
    }

    fn skipped_ensures(&self, p: &Program, f: FuncId, t: &SummaryTable, verdicts: &Vec<SatResult>) -> (r: Vec<
        bool,
    >) {
        Vec::new()
    }

    /// Nothing is guaranteed.
    fn infer_ensures(&self, p: &Program, f: FuncId, t: &SummaryTable, verdicts: &Vec<SatResult>) -> (r: Vec<
        Clause,
    >) {
        let r: Vec<Clause> = Vec::new();
        assert(clauses(r@) =~= Seq::<ClauseV>::empty());
        r
    }

    /// Sites that can go wrong under the function's own requirements, and calls that can
    /// violate what the callee requires.
    fn obligations(&self, p: &Program, f: FuncId, t: &SummaryTable) -> (r: Vec<Obligation>) {
        let none: Vec<Obligation> = Vec::new();
        assert(obligations_v(none@) =~= Seq::<ObligationV>::empty());
        let func = match p.func(f) {
            Some(func) => func,
            None => {
                return none;
            },
        };
        let enc = match encode_func(p, f) {
            Ok(enc) => enc,
            Err(_) => {
                return none;
            },
        };
        let pre = preconditions_of(t, f);
        let xs = all_fault_sites(p, func, &enc);
        assert(sites_v(xs@).len() == xs@.len());
        let mut out = judge_sites(p, f, func, &enc, &pre, &xs);
        let ds: Vec<Deref> = Vec::new();
        let idom: Vec<Option<usize>> = Vec::new();
        assert(ds@ =~= Seq::<Deref>::empty());
        call_site_obligations(p, func, &enc, "bounds", &pre, t, &ds, &idom, &mut out);
        call_site_obligations(p, func, &enc, "div-zero", &pre, t, &ds, &idom, &mut out);
        call_site_obligations(p, func, &enc, "overflow", &pre, t, &ds, &idom, &mut out);
        out
    }

    fn inference_fails(
        &self,
        p: &Program,
        f: FuncId,
        t: &SummaryTable,
        rv: &Vec<SatResult>,
        ev: &Vec<SatResult>,
    ) -> (r: bool) {
        false
    }

    fn checking_fails(&self, p: &Program, f: FuncId, t: &SummaryTable) -> (r: bool) {
        false
    }
}

} // verus!
