//! Contracts written in the program as annotations.

use vstd::prelude::*;
use crate::checker::Finding;
use crate::ir::{FuncId, Pos};
use crate::summary::{Clause, ClauseV};

verus! {

/// An annotated clause with its source text and position.
#[derive(Debug, PartialEq, Eq)]
pub struct AnnClause {
    pub clause: Clause,
    pub text: String,
    pub pos: Option<Pos>,
}

/// The annotations of one function.
#[derive(Debug, PartialEq, Eq)]
pub struct FuncAnnotations {
    pub requires_: Vec<AnnClause>,
    pub ensures_: Vec<AnnClause>,
    /// The checkers that are switched off for the function.
    pub ignores: Vec<String>,
}

/// The models of the clauses of a list of annotations.
pub open spec fn ann_clauses(v: Seq<AnnClause>) -> Seq<ClauseV> {
    Seq::new(v.len(), |i: int| v[i].clause@)
}

/// Annotations by function.
#[derive(Debug, PartialEq, Eq)]
pub struct Annotations {
    pub funcs: Vec<Option<FuncAnnotations>>,
    /// What is wrong with the annotations themselves.
    pub findings: Vec<Finding>,
}

impl Annotations {
    /// The annotations of `f`.
    pub open spec fn of(&self, f: FuncId) -> Option<FuncAnnotations> {
        if f.0 < self.funcs@.len() {
            self.funcs@[f.0 as int]
        } else {
            None
        }
    }

    /// The annotations of `f`.
    pub fn get(&self, f: FuncId) -> (r: Option<&FuncAnnotations>)
        ensures
            match r {
                Some(a) => self.of(f) == Some(*a),
                None => self.of(f) is None,
            },
    {
        if (f.0 as usize) < self.funcs.len() {
            match &self.funcs[f.0 as usize] {
                Some(a) => Some(a),
                None => None,
            }
        } else {
            None
        }
    }
}

} // verus!
