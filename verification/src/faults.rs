//! Checkers that fail: what is said of the function that they failed on.

use vstd::prelude::*;
use crate::ir::{FuncId, Program};

verus! {

/// What is said of a function whose clauses could not be inferred.
pub open spec fn analysis_fault(p: &Program, f: FuncId) -> Seq<char> {
    "internal: panic while analyzing "@ + p.name_of(f) + "; havoc summary substituted"@
}

/// What is said of a function whose findings were lost.
pub open spec fn findings_fault(p: &Program, f: FuncId) -> Seq<char> {
    "internal: panic while checking "@ + p.name_of(f) + "; findings for this function dropped"@
}

/// What is said of a function whose clauses could not be inferred.
pub fn analysis_fault_text(p: &Program, f: FuncId) -> (r: String)
    ensures
        r@ == analysis_fault(p, f),
{
    let mut r = "internal: panic while analyzing ".to_string();
    r.append(p.func_name(f));
    r.append("; havoc summary substituted");
    r
}

/// What is said of a function whose findings were lost.
pub fn findings_fault_text(p: &Program, f: FuncId) -> (r: String)
    ensures
        r@ == findings_fault(p, f),
{
    let mut r = "internal: panic while checking ".to_string();
    r.append(p.func_name(f));
    r.append("; findings for this function dropped");
    r
}

} // verus!
