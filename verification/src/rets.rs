//! The returns of a function.

use vstd::prelude::*;
use crate::ir::{Function, Op, Program, Site, TypeId, TypeKind, ValueId};

verus! {

/// The return instructions among the first `k`.
pub open spec fn returns_upto(f: &Function, k: int) -> Seq<Site>
    decreases k,
{
    if k <= 0 {
        Seq::empty()
    } else if f.op_at(f.sites()[k - 1]) is Return {
        returns_upto(f, k - 1).push(f.sites()[k - 1])
    } else {
        returns_upto(f, k - 1)
    }
}

/// The return instructions.
pub open spec fn ret_sites(f: &Function) -> Seq<Site> {
    returns_upto(f, f.sites().len() as int)
}

/// The values of the return at `s`.
pub open spec fn returned(f: &Function, s: Site) -> Seq<ValueId> {
    f.op_at(s)->vals@
}

/// The result types of a function.
pub open spec fn results_of_sig(p: &Program, f: &Function) -> Option<Seq<TypeId>> {
    match p.types.kind_of(f.sig) {
        TypeKind::Signature { params, results } => Some(results@),
        _ => None,
    }
}

/// Whether every return has `n` values.
pub open spec fn arity_fits(f: &Function, n: nat) -> bool {
    forall|j: int|
        0 <= j < ret_sites(f).len() ==> returned(f, #[trigger] ret_sites(f)[j]).len() == n
}

/// Whether guarantees can be inferred: the result types are known, there are returns, and
/// all of them fit.
pub open spec fn has_returns(p: &Program, f: &Function) -> bool {
    match results_of_sig(p, f) {
        Some(rs) => ret_sites(f).len() > 0 && arity_fits(f, rs.len()),
        None => false,
    }
}

/// Every return instruction, in order.
pub fn return_sites(f: &Function) -> (r: Vec<Site>)
    ensures
        r@ == ret_sites(f),
        forall|j: int|
            0 <= j < r@.len() ==> f.has_site(#[trigger] r@[j]) && f.op_at(r@[j]) is Return,
{
    let sites = f.all_sites();
    let mut out: Vec<Site> = Vec::new();
    let mut k: usize = 0;
    while k < sites.len()
        invariant
            k <= sites@.len(),
            sites@ == f.sites(),
            forall|k: int| 0 <= k < sites@.len() ==> f.has_site(#[trigger] sites@[k]),
            out@ == returns_upto(f, k as int),
            forall|j: int|
                0 <= j < out@.len() ==> f.has_site(#[trigger] out@[j]) && f.op_at(out@[j]) is Return,
        decreases sites@.len() - k,
    {
        let s = sites[k];
        if let Op::Return { .. } = f.op(s) {
            out.push(s);
        }
        k += 1;
    }
    out
}

/// Whether the return at `s` has `n` values.
pub fn has_count(f: &Function, s: Site, n: usize) -> (r: bool)
    requires
        f.has_site(s),
        f.op_at(s) is Return,
    ensures
        r == (returned(f, s).len() == n),
{
    match f.op(s) {
        Op::Return { vals } => vals.len() == n,
        _ => false,
    }
}

/// Value `i` of the return at `s`.
pub fn returned_value(f: &Function, s: Site, i: usize) -> (r: ValueId)
    requires
        f.has_site(s),
        f.op_at(s) is Return,
        i < returned(f, s).len(),
    ensures
        r == returned(f, s)[i as int],
{
    match f.op(s) {
        Op::Return { vals } => vals[i],
        _ => ValueId(0),
    }
}

/// Whether all returns fit the signature and there is one.
pub fn returns_fit(f: &Function, rets: &Vec<Site>, n: usize) -> (r: bool)
    requires
        rets@ == ret_sites(f),
        forall|j: int|
            0 <= j < rets@.len() ==> f.has_site(#[trigger] rets@[j]) && f.op_at(rets@[j]) is Return,
    ensures
        r == (ret_sites(f).len() > 0 && arity_fits(f, n as nat)),
{
    let mut j: usize = 0;
    while j < rets.len()
        invariant
            j <= rets@.len(),
            rets@ == ret_sites(f),
            forall|j: int|
                0 <= j < rets@.len() ==> f.has_site(#[trigger] rets@[j]) && f.op_at(rets@[j]) is Return,
            forall|i: int| 0 <= i < j ==> returned(f, #[trigger] ret_sites(f)[i]).len() == n,
        decreases rets@.len() - j,
    {
        if !has_count(f, rets[j], n) {
            assert(returned(f, ret_sites(f)[j as int]).len() != n);
            return false;
        }
        j += 1;
    }
    rets.len() > 0
}

} // verus!
