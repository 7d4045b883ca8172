//! Sorted first-order terms over booleans, bitvectors, pointers and slice values,
//! and the solver queries made of them.
//!
//! A [`Term`] is modelled by a [`TermV`]. The constructors check sorts, so a term that
//! only they built is well sorted.

use vstd::prelude::*;
use crate::order::SortedMap;

verus! {

/// The sort of a term. `GoSeq` holds slices and strings as a length and a capacity.
#[derive(Debug, Clone, Copy, PartialEq, Eq, PartialOrd, Ord, Hash, Structural)]
pub enum Sort {
    Bool,
    BitVec(u32),
    GoSeq,
    Ptr,
}

impl View for Sort {
    type V = Sort;

    open spec fn view(&self) -> Sort {
        *self
    }
}

/// Binary operations on bitvectors of one width.
#[derive(Debug, Clone, Copy, PartialEq, Eq, Hash, Structural)]
pub enum BvBinOp {
    Add,
    Sub,
    Mul,
    And,
    Or,
    Xor,
    Shl,
    Ashr,
    Lshr,
    Sdiv,
    Udiv,
    Srem,
    Urem,
}

/// Comparisons of bitvectors of one width.
#[derive(Debug, Clone, Copy, PartialEq, Eq, Hash, Structural)]
pub enum BvCmpOp {
    Ult,
    Ule,
    Slt,
    Sle,
}

/// A term.
#[derive(Debug, PartialEq, Eq)]
pub enum Term {
    Var(String, Sort),
    BoolLit(bool),
    BvLit(u32, u128),
    Eq(Box<Term>, Box<Term>),
    Not(Box<Term>),
    And(Vec<Term>),
    Or(Vec<Term>),
    Ite(Box<Term>, Box<Term>, Box<Term>),
    BvBin(BvBinOp, Box<Term>, Box<Term>),
    BvCmp(BvCmpOp, Box<Term>, Box<Term>),
    PtrNil,
    PtrIsNil(Box<Term>),
    SeqVal(Box<Term>, Box<Term>),
    SeqLen(Box<Term>),
    SeqCap(Box<Term>),
}

/// The model of a [`Term`].
#[verifier::ext_equal]
pub enum TermV {
    Var(Seq<char>, Sort),
    BoolLit(bool),
    BvLit(u32, u128),
    Eq(Box<TermV>, Box<TermV>),
    Not(Box<TermV>),
    And(Seq<TermV>),
    Or(Seq<TermV>),
    Ite(Box<TermV>, Box<TermV>, Box<TermV>),
    BvBin(BvBinOp, Box<TermV>, Box<TermV>),
    BvCmp(BvCmpOp, Box<TermV>, Box<TermV>),
    PtrNil,
    PtrIsNil(Box<TermV>),
    SeqVal(Box<TermV>, Box<TermV>),
    SeqLen(Box<TermV>),
    SeqCap(Box<TermV>),
}

impl TermV {
    /// The sort that the outermost symbol gives.
    pub open spec fn sort(self) -> Sort
        decreases self,
    {
        match self {
            TermV::Var(_, s) => s,
            TermV::BvLit(w, _) => Sort::BitVec(w),
            TermV::Ite(_, a, _) => (*a).sort(),
            TermV::BvBin(_, a, _) => (*a).sort(),
            TermV::PtrNil => Sort::Ptr,
            TermV::SeqVal(_, _) => Sort::GoSeq,
            TermV::SeqLen(_) => Sort::BitVec(64),
            TermV::SeqCap(_) => Sort::BitVec(64),
            _ => Sort::Bool,
        }
    }

    /// Whether every symbol is applied to arguments of its sorts.
    pub open spec fn well_sorted(self) -> bool
        decreases self,
    {
        match self {
            TermV::Var(_, _) | TermV::BoolLit(_) | TermV::PtrNil => true,
            TermV::BvLit(w, v) => v < lit_limit(w),
            TermV::Eq(a, b) => (*a).well_sorted() && (*b).well_sorted() && (*a).sort() == (*b).sort(),
            TermV::Not(a) => (*a).well_sorted() && (*a).sort() == Sort::Bool,
            TermV::And(v) => v.len() > 0 && forall|i: int|
                0 <= i < v.len() ==> (#[trigger] v[i]).well_sorted() && v[i].sort() == Sort::Bool,
            TermV::Or(v) => v.len() > 0 && forall|i: int|
                0 <= i < v.len() ==> (#[trigger] v[i]).well_sorted() && v[i].sort() == Sort::Bool,
            TermV::Ite(c, a, b) => (*c).well_sorted() && (*a).well_sorted() && (*b).well_sorted()
                && (*c).sort() == Sort::Bool && (*a).sort() == (*b).sort(),
            TermV::BvBin(_, a, b) => (*a).well_sorted() && (*b).well_sorted() && (*a).sort()
                == (*b).sort() && (*a).sort() is BitVec,
            TermV::BvCmp(_, a, b) => (*a).well_sorted() && (*b).well_sorted() && (*a).sort()
                == (*b).sort() && (*a).sort() is BitVec,
            TermV::PtrIsNil(a) => (*a).well_sorted() && (*a).sort() == Sort::Ptr,
            TermV::SeqVal(a, b) => (*a).well_sorted() && (*b).well_sorted() && (*a).sort()
                == Sort::BitVec(64) && (*b).sort() == Sort::BitVec(64),
            TermV::SeqLen(a) => (*a).well_sorted() && (*a).sort() == Sort::GoSeq,
            TermV::SeqCap(a) => (*a).well_sorted() && (*a).sort() == Sort::GoSeq,
        }
    }

    /// The free variables of `self`, added to `m` from left to right.
    pub open spec fn vars_into(self, m: Map<Seq<char>, Sort>) -> Map<Seq<char>, Sort>
        decreases self, 0nat,
    {
        match self {
            TermV::Var(n, s) => m.insert(n, s),
            TermV::BoolLit(_) | TermV::PtrNil | TermV::BvLit(_, _) => m,
            TermV::Eq(a, b) => (*b).vars_into((*a).vars_into(m)),
            TermV::Not(a) => (*a).vars_into(m),
            TermV::And(v) => Self::list_vars(v, v.len(), m),
            TermV::Or(v) => Self::list_vars(v, v.len(), m),
            TermV::Ite(c, a, b) => (*b).vars_into((*a).vars_into((*c).vars_into(m))),
            TermV::BvBin(_, a, b) => (*b).vars_into((*a).vars_into(m)),
            TermV::BvCmp(_, a, b) => (*b).vars_into((*a).vars_into(m)),
            TermV::PtrIsNil(a) => (*a).vars_into(m),
            TermV::SeqVal(a, b) => (*b).vars_into((*a).vars_into(m)),
            TermV::SeqLen(a) => (*a).vars_into(m),
            TermV::SeqCap(a) => (*a).vars_into(m),
        }
    }

    /// The free variables of the first `n` terms of `v`, added to `m`.
    pub open spec fn list_vars(v: Seq<TermV>, n: nat, m: Map<Seq<char>, Sort>) -> Map<Seq<char>, Sort>
        decreases v, n,
    {
        if n == 0 || n > v.len() {
            m
        } else {
            v[n - 1].vars_into(Self::list_vars(v, (n - 1) as nat, m))
        }
    }

    /// The free variables with their sorts.
    pub open spec fn vars(self) -> Map<Seq<char>, Sort> {
        self.vars_into(Map::empty())
    }

    /// `self` with every variable in the domain of `m` replaced by what `m` holds for it.
    pub open spec fn subst(self, m: Map<Seq<char>, TermV>) -> TermV
        decreases self,
    {
        match self {
            TermV::Var(n, s) => if m.contains_key(n) { m[n] } else { self },
            TermV::BoolLit(_) | TermV::PtrNil | TermV::BvLit(_, _) => self,
            TermV::Eq(a, b) => TermV::Eq(Box::new((*a).subst(m)), Box::new((*b).subst(m))),
            TermV::Not(a) => TermV::Not(Box::new((*a).subst(m))),
            TermV::And(v) => TermV::And(
                Seq::new(v.len(), |i: int| if 0 <= i < v.len() { v[i].subst(m) } else { arbitrary() }),
            ),
            TermV::Or(v) => TermV::Or(
                Seq::new(v.len(), |i: int| if 0 <= i < v.len() { v[i].subst(m) } else { arbitrary() }),
            ),
            TermV::Ite(c, a, b) => TermV::Ite(
                Box::new((*c).subst(m)),
                Box::new((*a).subst(m)),
                Box::new((*b).subst(m)),
            ),
            TermV::BvBin(o, a, b) => TermV::BvBin(o, Box::new((*a).subst(m)), Box::new((*b).subst(m))),
            TermV::BvCmp(o, a, b) => TermV::BvCmp(o, Box::new((*a).subst(m)), Box::new((*b).subst(m))),
            TermV::PtrIsNil(a) => TermV::PtrIsNil(Box::new((*a).subst(m))),
            TermV::SeqVal(a, b) => TermV::SeqVal(Box::new((*a).subst(m)), Box::new((*b).subst(m))),
            TermV::SeqLen(a) => TermV::SeqLen(Box::new((*a).subst(m))),
            TermV::SeqCap(a) => TermV::SeqCap(Box::new((*a).subst(m))),
        }
    }

    /// Whether `m` gives each variable of `self` that it replaces a term of the variable's sort.
    pub open spec fn subst_fits(self, m: Map<Seq<char>, TermV>) -> bool
        decreases self,
    {
        match self {
            TermV::Var(n, s) => m.contains_key(n) ==> m[n].sort() == s,
            TermV::BoolLit(_) | TermV::PtrNil | TermV::BvLit(_, _) => true,
            TermV::Eq(a, b) => (*a).subst_fits(m) && (*b).subst_fits(m),
            TermV::Not(a) => (*a).subst_fits(m),
            TermV::And(v) => forall|i: int| 0 <= i < v.len() ==> (#[trigger] v[i]).subst_fits(m),
            TermV::Or(v) => forall|i: int| 0 <= i < v.len() ==> (#[trigger] v[i]).subst_fits(m),
            TermV::Ite(c, a, b) => (*c).subst_fits(m) && (*a).subst_fits(m) && (*b).subst_fits(m),
            TermV::BvBin(o, a, b) => (*a).subst_fits(m) && (*b).subst_fits(m),
            TermV::BvCmp(o, a, b) => (*a).subst_fits(m) && (*b).subst_fits(m),
            TermV::PtrIsNil(a) => (*a).subst_fits(m),
            TermV::SeqVal(a, b) => (*a).subst_fits(m) && (*b).subst_fits(m),
            TermV::SeqLen(a) => (*a).subst_fits(m),
            TermV::SeqCap(a) => (*a).subst_fits(m),
        }
    }
}

/// The first value that a literal of width `w` cannot hold.
pub open spec fn lit_limit(w: u32) -> int {
    if w == 8 {
        0x100
    } else if w == 16 {
        0x1_0000
    } else if w == 32 {
        0x1_0000_0000
    } else if w == 64 {
        0x1_0000_0000_0000_0000
    } else {
        0
    }
}

/// `a = b`.
pub open spec fn t_eq(a: TermV, b: TermV) -> TermV {
    TermV::Eq(Box::new(a), Box::new(b))
}

/// `not a`.
pub open spec fn t_not(a: TermV) -> TermV {
    TermV::Not(Box::new(a))
}

/// `if c then a else b`.
pub open spec fn t_ite(c: TermV, a: TermV, b: TermV) -> TermV {
    TermV::Ite(Box::new(c), Box::new(a), Box::new(b))
}

/// A bitvector operation.
pub open spec fn t_bin(o: BvBinOp, a: TermV, b: TermV) -> TermV {
    TermV::BvBin(o, Box::new(a), Box::new(b))
}

/// A bitvector comparison.
pub open spec fn t_compare(o: BvCmpOp, a: TermV, b: TermV) -> TermV {
    TermV::BvCmp(o, Box::new(a), Box::new(b))
}

/// The slice value of a length and a capacity.
pub open spec fn t_seq(a: TermV, b: TermV) -> TermV {
    TermV::SeqVal(Box::new(a), Box::new(b))
}

/// `a = b` where the sorts agree.
pub open spec fn mk_eq(a: TermV, b: TermV) -> Option<TermV> {
    if a.sort() == b.sort() { Some(t_eq(a, b)) } else { None }
}

/// `not a` where `a` is boolean.
pub open spec fn mk_not(a: TermV) -> Option<TermV> {
    if a.sort() == Sort::Bool { Some(t_not(a)) } else { None }
}

/// Whether all of `v` are boolean and there is at least one.
pub open spec fn all_bool(v: Seq<TermV>) -> bool {
    v.len() > 0 && forall|i: int| 0 <= i < v.len() ==> (#[trigger] v[i]).sort() == Sort::Bool
}

/// The conjunction of `v`.
pub open spec fn mk_and(v: Seq<TermV>) -> Option<TermV> {
    if all_bool(v) { Some(TermV::And(v)) } else { None }
}

/// The disjunction of `v`.
pub open spec fn mk_or(v: Seq<TermV>) -> Option<TermV> {
    if all_bool(v) { Some(TermV::Or(v)) } else { None }
}

/// The conditional, where its sorts fit.
pub open spec fn mk_ite(c: TermV, a: TermV, b: TermV) -> Option<TermV> {
    if c.sort() == Sort::Bool && a.sort() == b.sort() { Some(t_ite(c, a, b)) } else { None }
}

/// The bitvector operation, where both sides are bitvectors of one width.
pub open spec fn mk_bin(o: BvBinOp, a: TermV, b: TermV) -> Option<TermV> {
    if a.sort() is BitVec && a.sort() == b.sort() { Some(t_bin(o, a, b)) } else { None }
}

/// The bitvector comparison, where both sides are bitvectors of one width.
pub open spec fn mk_compare(o: BvCmpOp, a: TermV, b: TermV) -> Option<TermV> {
    if a.sort() is BitVec && a.sort() == b.sort() { Some(t_compare(o, a, b)) } else { None }
}

/// The nil test on a pointer.
pub open spec fn mk_is_nil(a: TermV) -> Option<TermV> {
    if a.sort() == Sort::Ptr { Some(TermV::PtrIsNil(Box::new(a))) } else { None }
}

/// The slice value of a length and a capacity, where both have 64 bits.
pub open spec fn mk_seq(a: TermV, b: TermV) -> Option<TermV> {
    if a.sort() == Sort::BitVec(64) && b.sort() == Sort::BitVec(64) { Some(t_seq(a, b)) } else { None }
}

/// The length of a slice value.
pub open spec fn mk_len(a: TermV) -> Option<TermV> {
    if a.sort() == Sort::GoSeq { Some(TermV::SeqLen(Box::new(a))) } else { None }
}

/// The capacity of a slice value.
pub open spec fn mk_cap(a: TermV) -> Option<TermV> {
    if a.sort() == Sort::GoSeq { Some(TermV::SeqCap(Box::new(a))) } else { None }
}

/// The models of a vector of terms.
pub open spec fn terms(v: Seq<Term>) -> Seq<TermV> {
    Seq::new(v.len(), |i: int| v[i]@)
}

/// The model of an optional term.
pub open spec fn opt_term(t: Option<Term>) -> Option<TermV> {
    match t {
        Some(t) => Some(t@),
        None => None,
    }
}

impl Term {
    /// The model of `self`.
    pub open spec fn model(self) -> TermV
        decreases self,
    {
        match self {
            Term::Var(n, s) => TermV::Var(n@, s),
            Term::BoolLit(b) => TermV::BoolLit(b),
            Term::BvLit(w, v) => TermV::BvLit(w, v),
            Term::Eq(a, b) => TermV::Eq(Box::new((*a).model()), Box::new((*b).model())),
            Term::Not(a) => TermV::Not(Box::new((*a).model())),
            Term::And(v) => TermV::And(
                Seq::new(
                    v@.len(),
                    |i: int| if 0 <= i < v@.len() { v@[i].model() } else { arbitrary() },
                ),
            ),
            Term::Or(v) => TermV::Or(
                Seq::new(
                    v@.len(),
                    |i: int| if 0 <= i < v@.len() { v@[i].model() } else { arbitrary() },
                ),
            ),
            Term::Ite(c, a, b) => TermV::Ite(
                Box::new((*c).model()),
                Box::new((*a).model()),
                Box::new((*b).model()),
            ),
            Term::BvBin(o, a, b) => TermV::BvBin(o, Box::new((*a).model()), Box::new((*b).model())),
            Term::BvCmp(o, a, b) => TermV::BvCmp(o, Box::new((*a).model()), Box::new((*b).model())),
            Term::PtrNil => TermV::PtrNil,
            Term::PtrIsNil(a) => TermV::PtrIsNil(Box::new((*a).model())),
            Term::SeqVal(a, b) => TermV::SeqVal(Box::new((*a).model()), Box::new((*b).model())),
            Term::SeqLen(a) => TermV::SeqLen(Box::new((*a).model())),
            Term::SeqCap(a) => TermV::SeqCap(Box::new((*a).model())),
        }
    }
}

impl View for Term {
    type V = TermV;

    open spec fn view(&self) -> TermV {
        self.model()
    }
}

/// The model of a conjunction is made of the models of its parts.
pub proof fn lemma_and_view(v: Vec<Term>)
    ensures
        Term::And(v)@ == TermV::And(terms(v@)),
        Term::Or(v)@ == TermV::Or(terms(v@)),
{
    let t = Term::And(v);
    assert(t@->And_0 =~= terms(v@));
    let t = Term::Or(v);
    assert(t@->Or_0 =~= terms(v@));
}

impl Term {
    /// A copy.
    pub fn dup(&self) -> (r: Term)
        ensures
            r@ == self@,
        decreases self,
    {
        match self {
            Term::Var(n, s) => Term::Var(n.clone(), *s),
            Term::BoolLit(b) => Term::BoolLit(*b),
            Term::BvLit(w, v) => Term::BvLit(*w, *v),
            Term::Eq(a, b) => Term::Eq(Box::new(a.dup()), Box::new(b.dup())),
            Term::Not(a) => Term::Not(Box::new(a.dup())),
            Term::And(v) => {
                assert(decreases_to!(self => v@));
                let c = Self::dup_list(v);
                proof {
                    lemma_and_view(c);
                    lemma_and_view(*v);
                }
                Term::And(c)
            },
            Term::Or(v) => {
                assert(decreases_to!(self => v@));
                let c = Self::dup_list(v);
                proof {
                    lemma_and_view(c);
                    lemma_and_view(*v);
                }
                Term::Or(c)
            },
            Term::Ite(c, a, b) => Term::Ite(Box::new(c.dup()), Box::new(a.dup()), Box::new(b.dup())),
            Term::BvBin(o, a, b) => Term::BvBin(*o, Box::new(a.dup()), Box::new(b.dup())),
            Term::BvCmp(o, a, b) => Term::BvCmp(*o, Box::new(a.dup()), Box::new(b.dup())),
            Term::PtrNil => Term::PtrNil,
            Term::PtrIsNil(a) => Term::PtrIsNil(Box::new(a.dup())),
            Term::SeqVal(a, b) => Term::SeqVal(Box::new(a.dup()), Box::new(b.dup())),
            Term::SeqLen(a) => Term::SeqLen(Box::new(a.dup())),
            Term::SeqCap(a) => Term::SeqCap(Box::new(a.dup())),
        }
    }

    /// A copy of each of `v`.
    pub fn dup_list(v: &Vec<Term>) -> (r: Vec<Term>)
        ensures
            terms(r@) == terms(v@),
        decreases v@,
    {
        let mut out: Vec<Term> = Vec::new();
        let mut i: usize = 0;
        while i < v.len()
            invariant
                i <= v@.len(),
                out@.len() == i,
                forall|j: int| 0 <= j < i ==> (#[trigger] out@[j])@ == v@[j]@,
            decreases v@.len() - i,
        {
            assert(decreases_to!(v@ => v@[i as int]));
            out.push(v[i].dup());
            i += 1;
        }
        assert(terms(out@) =~= terms(v@));
        out
    }

    /// Whether the two terms are the same.
    pub fn same(&self, other: &Term) -> (r: bool)
        ensures
            r == (self@ == other@),
        decreases self,
    {
        match (self, other) {
            (Term::Var(n, s), Term::Var(m, u)) => *n == *m && *s == *u,
            (Term::BoolLit(a), Term::BoolLit(b)) => *a == *b,
            (Term::BvLit(w, v), Term::BvLit(x, y)) => *w == *x && *v == *y,
            (Term::Eq(a, b), Term::Eq(c, d)) => a.same(c) && b.same(d),
            (Term::Not(a), Term::Not(c)) => a.same(c),
            (Term::And(v), Term::And(w)) => {
                assert(decreases_to!(self => v@));
                proof {
                    lemma_and_view(*v);
                    lemma_and_view(*w);
                }
                Self::same_list(v, w)
            },
            (Term::Or(v), Term::Or(w)) => {
                assert(decreases_to!(self => v@));
                proof {
                    lemma_and_view(*v);
                    lemma_and_view(*w);
                }
                Self::same_list(v, w)
            },
            (Term::Ite(c, a, b), Term::Ite(f, d, e)) => c.same(f) && a.same(d) && b.same(e),
            (Term::BvBin(o, a, b), Term::BvBin(p, c, d)) => *o == *p && a.same(c) && b.same(d),
            (Term::BvCmp(o, a, b), Term::BvCmp(p, c, d)) => *o == *p && a.same(c) && b.same(d),
            (Term::PtrNil, Term::PtrNil) => true,
            (Term::PtrIsNil(a), Term::PtrIsNil(c)) => a.same(c),
            (Term::SeqVal(a, b), Term::SeqVal(c, d)) => a.same(c) && b.same(d),
            (Term::SeqLen(a), Term::SeqLen(c)) => a.same(c),
            (Term::SeqCap(a), Term::SeqCap(c)) => a.same(c),
            _ => false,
        }
    }

    /// Whether the two lists are the same.
    pub fn same_list(v: &Vec<Term>, w: &Vec<Term>) -> (r: bool)
        ensures
            r == (terms(v@) == terms(w@)),
        decreases v@,
    {
        proof {
            assert(terms(v@).len() == v@.len());
            assert(terms(w@).len() == w@.len());
        }
        if v.len() != w.len() {
            return false;
        }
        let mut i: usize = 0;
        while i < v.len()
            invariant
                i <= v@.len(),
                v@.len() == w@.len(),
                forall|j: int| 0 <= j < i ==> (#[trigger] v@[j])@ == w@[j]@,
            decreases v@.len() - i,
        {
            assert(decreases_to!(v@ => v@[i as int]));
            if !v[i].same(&w[i]) {
                assert(terms(v@)[i as int] != terms(w@)[i as int]);
                return false;
            }
            i += 1;
        }
        assert(terms(v@) =~= terms(w@));
        true
    }

    /// The sort.
    pub fn sort(&self) -> (r: Sort)
        ensures
            r == self@.sort(),
        decreases self,
    {
        match self {
            Term::Var(_, s) => *s,
            Term::BvLit(w, _) => Sort::BitVec(*w),
            Term::Ite(_, a, _) => a.sort(),
            Term::BvBin(_, a, _) => a.sort(),
            Term::PtrNil => Sort::Ptr,
            Term::SeqVal(_, _) => Sort::GoSeq,
            Term::SeqLen(_) => Sort::BitVec(64),
            Term::SeqCap(_) => Sort::BitVec(64),
            _ => Sort::Bool,
        }
    }

    /// The variable `name`.
    pub fn var(name: &str, sort: Sort) -> (r: Term)
        ensures
            r@ == TermV::Var(name@, sort),
    {
        Term::Var(name.to_string(), sort)
    }

    /// The truth value `b`.
    pub fn bool_lit(b: bool) -> (r: Term)
        ensures
            r@ == TermV::BoolLit(b),
    {
        Term::BoolLit(b)
    }

    /// The bitvector of width `w` with value `v`.
    pub fn bv_lit(w: u32, v: u128) -> (r: Term)
        ensures
            r@ == TermV::BvLit(w, v),
    {
        Term::BvLit(w, v)
    }

    /// `a = b`; `None` where the sorts differ.
    pub fn eq(a: Term, b: Term) -> (r: Option<Term>)
        ensures
            opt_term(r) == mk_eq(a@, b@),
    {
        if a.sort() == b.sort() {
            Some(Term::Eq(Box::new(a), Box::new(b)))
        } else {
            None
        }
    }

    /// `not a`; `None` where `a` is not boolean.
    pub fn not(a: Term) -> (r: Option<Term>)
        ensures
            opt_term(r) == mk_not(a@),
    {
        if a.sort() == Sort::Bool {
            Some(Term::Not(Box::new(a)))
        } else {
            None
        }
    }

    fn all_bool(v: &Vec<Term>) -> (r: bool)
        ensures
            r == all_bool(terms(v@)),
    {
        if v.len() == 0 {
            return false;
        }
        let mut i: usize = 0;
        while i < v.len()
            invariant
                0 < v@.len(),
                i <= v@.len(),
                forall|j: int| 0 <= j < i ==> (#[trigger] terms(v@)[j]).sort() == Sort::Bool,
            decreases v@.len() - i,
        {
            assert(terms(v@)[i as int] == v@[i as int]@);
            if v[i].sort() != Sort::Bool {
                return false;
            }
            i += 1;
        }
        true
    }

    /// The conjunction of `v`; `None` where `v` is empty or not all boolean.
    pub fn and(v: Vec<Term>) -> (r: Option<Term>)
        ensures
            opt_term(r) == mk_and(terms(v@)),
    {
        proof {
            lemma_and_view(v);
        }
        if Self::all_bool(&v) {
            Some(Term::And(v))
        } else {
            None
        }
    }

    /// The disjunction of `v`; `None` where `v` is empty or not all boolean.
    pub fn or(v: Vec<Term>) -> (r: Option<Term>)
        ensures
            opt_term(r) == mk_or(terms(v@)),
    {
        proof {
            lemma_and_view(v);
        }
        if Self::all_bool(&v) {
            Some(Term::Or(v))
        } else {
            None
        }
    }

    /// The conjunction of two terms.
    pub fn and2(a: Term, b: Term) -> (r: Option<Term>)
        ensures
            opt_term(r) == mk_and(seq![a@, b@]),
    {
        let ghost s = seq![a@, b@];
        let mut v: Vec<Term> = Vec::new();
        v.push(a);
        v.push(b);
        assert(terms(v@) =~= s);
        Self::and(v)
    }

    /// The disjunction of two terms.
    pub fn or2(a: Term, b: Term) -> (r: Option<Term>)
        ensures
            opt_term(r) == mk_or(seq![a@, b@]),
    {
        let ghost s = seq![a@, b@];
        let mut v: Vec<Term> = Vec::new();
        v.push(a);
        v.push(b);
        assert(terms(v@) =~= s);
        Self::or(v)
    }

    /// `if c then a else b`; `None` where the sorts do not fit.
    pub fn ite(c: Term, a: Term, b: Term) -> (r: Option<Term>)
        ensures
            opt_term(r) == mk_ite(c@, a@, b@),
    {
        if c.sort() == Sort::Bool && a.sort() == b.sort() {
            Some(Term::Ite(Box::new(c), Box::new(a), Box::new(b)))
        } else {
            None
        }
    }

    fn same_width(a: &Term, b: &Term) -> (r: bool)
        ensures
            r == (a@.sort() is BitVec && a@.sort() == b@.sort()),
    {
        match (a.sort(), b.sort()) {
            (Sort::BitVec(x), Sort::BitVec(y)) => x == y,
            _ => false,
        }
    }

    /// A bitvector operation; `None` where the sides are not bitvectors of one width.
    pub fn bv_bin(o: BvBinOp, a: Term, b: Term) -> (r: Option<Term>)
        ensures
            opt_term(r) == mk_bin(o, a@, b@),
    {
        if Self::same_width(&a, &b) {
            Some(Term::BvBin(o, Box::new(a), Box::new(b)))
        } else {
            None
        }
    }

    /// A bitvector comparison; `None` where the sides are not bitvectors of one width.
    pub fn bv_compare(o: BvCmpOp, a: Term, b: Term) -> (r: Option<Term>)
        ensures
            opt_term(r) == mk_compare(o, a@, b@),
    {
        if Self::same_width(&a, &b) {
            Some(Term::BvCmp(o, Box::new(a), Box::new(b)))
        } else {
            None
        }
    }

    /// The slice value of a length and a capacity; `None` where they are not 64 bits wide.
    pub fn seq_val(a: Term, b: Term) -> (r: Option<Term>)
        ensures
            opt_term(r) == mk_seq(a@, b@),
    {
        if a.sort() == Sort::BitVec(64) && b.sort() == Sort::BitVec(64) {
            Some(Term::SeqVal(Box::new(a), Box::new(b)))
        } else {
            None
        }
    }

    /// The length of a slice value; `None` on other sorts.
    pub fn seq_len(a: Term) -> (r: Option<Term>)
        ensures
            opt_term(r) == mk_len(a@),
    {
        if a.sort() == Sort::GoSeq {
            Some(Term::SeqLen(Box::new(a)))
        } else {
            None
        }
    }

    /// The capacity of a slice value; `None` on other sorts.
    pub fn seq_cap(a: Term) -> (r: Option<Term>)
        ensures
            opt_term(r) == mk_cap(a@),
    {
        if a.sort() == Sort::GoSeq {
            Some(Term::SeqCap(Box::new(a)))
        } else {
            None
        }
    }

    /// Adds the free variables, with their sorts, to `out`.
    fn collect_vars(&self, out: &mut SortedMap<String, Sort>)
        requires
            old(out).wf(),
        ensures
            final(out).wf(),
            final(out)@ == self@.vars_into(old(out)@),
        decreases self,
    {
        match self {
            Term::Var(n, s) => {
                out.insert(n.clone(), *s);
            },
            Term::BoolLit(_) | Term::BvLit(_, _) | Term::PtrNil => {},
            Term::Eq(a, b) | Term::BvBin(_, a, b) | Term::BvCmp(_, a, b) | Term::SeqVal(a, b) => {
                a.collect_vars(out);
                b.collect_vars(out);
            },
            Term::Not(a) | Term::PtrIsNil(a) | Term::SeqLen(a) | Term::SeqCap(a) => {
                a.collect_vars(out);
            },
            Term::And(v) | Term::Or(v) => {
                assert(decreases_to!(self => v@));
                proof {
                    lemma_and_view(*v);
                }
                Self::collect_list(v, out);
            },
            Term::Ite(c, a, b) => {
                c.collect_vars(out);
                a.collect_vars(out);
                b.collect_vars(out);
            },
        }
    }

    fn collect_list(v: &Vec<Term>, out: &mut SortedMap<String, Sort>)
        requires
            old(out).wf(),
        ensures
            final(out).wf(),
            final(out)@ == TermV::list_vars(terms(v@), v@.len(), old(out)@),
        decreases v@,
    {
        let mut i: usize = 0;
        while i < v.len()
            invariant
                i <= v@.len(),
                out.wf(),
                out@ == TermV::list_vars(terms(v@), i as nat, old(out)@),
            decreases v@.len() - i,
        {
            assert(decreases_to!(v@ => v@[i as int]));
            v[i].collect_vars(out);
            i += 1;
            assert(terms(v@)[i - 1] == v@[i - 1]@);
        }
    }

    /// The free variables with their sorts, by name.
    pub fn free_vars(&self) -> (r: SortedMap<String, Sort>)
        ensures
            r.wf(),
            r@ == self@.vars(),
    {
        let mut out: SortedMap<String, Sort> = SortedMap::new();
        self.collect_vars(&mut out);
        out
    }

    /// The term with the variables of `m` replaced; `None` where a replacement has
    /// another sort than its variable.
    pub fn substitute(&self, m: &SortedMap<String, Term>) -> (r: Option<Term>)
        requires
            m.wf(),
        ensures
            match r {
                Some(t) => self@.subst_fits(m@) && t@ == self@.subst(m@),
                None => !self@.subst_fits(m@),
            },
        decreases self,
    {
        match self {
            Term::Var(n, s) => match m.get(n) {
                Some(t) => if t.sort() == *s { Some(t.dup()) } else { None },
                None => Some(self.dup()),
            },
            Term::BoolLit(_) | Term::BvLit(_, _) | Term::PtrNil => Some(self.dup()),
            Term::Eq(a, b) => match (a.substitute(m), b.substitute(m)) {
                (Some(x), Some(y)) => Some(Term::Eq(Box::new(x), Box::new(y))),
                _ => None,
            },
            Term::BvBin(o, a, b) => match (a.substitute(m), b.substitute(m)) {
                (Some(x), Some(y)) => Some(Term::BvBin(*o, Box::new(x), Box::new(y))),
                _ => None,
            },
            Term::BvCmp(o, a, b) => match (a.substitute(m), b.substitute(m)) {
                (Some(x), Some(y)) => Some(Term::BvCmp(*o, Box::new(x), Box::new(y))),
                _ => None,
            },
            Term::SeqVal(a, b) => match (a.substitute(m), b.substitute(m)) {
                (Some(x), Some(y)) => Some(Term::SeqVal(Box::new(x), Box::new(y))),
                _ => None,
            },
            Term::Not(a) => match a.substitute(m) {
                Some(x) => Some(Term::Not(Box::new(x))),
                None => None,
            },
            Term::PtrIsNil(a) => match a.substitute(m) {
                Some(x) => Some(Term::PtrIsNil(Box::new(x))),
                None => None,
            },
            Term::SeqLen(a) => match a.substitute(m) {
                Some(x) => Some(Term::SeqLen(Box::new(x))),
                None => None,
            },
            Term::SeqCap(a) => match a.substitute(m) {
                Some(x) => Some(Term::SeqCap(Box::new(x))),
                None => None,
            },
            Term::Ite(c, a, b) => match (c.substitute(m), a.substitute(m), b.substitute(m)) {
                (Some(z), Some(x), Some(y)) => Some(
                    Term::Ite(Box::new(z), Box::new(x), Box::new(y)),
                ),
                _ => None,
            },
            Term::And(v) => {
                assert(decreases_to!(self => v@));
                proof {
                    lemma_and_view(*v);
                }
                match Self::substitute_list(v, m) {
                    Some(w) => {
                        proof {
                            lemma_and_view(w);
                            assert(terms(w@) =~= self@.subst(m@)->And_0);
                        }
                        Some(Term::And(w))
                    },
                    None => None,
                }
            },
            Term::Or(v) => {
                assert(decreases_to!(self => v@));
                proof {
                    lemma_and_view(*v);
                }
                match Self::substitute_list(v, m) {
                    Some(w) => {
                        proof {
                            lemma_and_view(w);
                            assert(terms(w@) =~= self@.subst(m@)->Or_0);
                        }
                        Some(Term::Or(w))
                    },
                    None => None,
                }
            },
        }
    }

    fn substitute_list(v: &Vec<Term>, m: &SortedMap<String, Term>) -> (r: Option<Vec<Term>>)
        requires
            m.wf(),
        ensures
            match r {
                Some(w) => w@.len() == v@.len() && forall|i: int|
                    0 <= i < v@.len() ==> (#[trigger] terms(v@)[i]).subst_fits(m@) && terms(w@)[i]
                        == terms(v@)[i].subst(m@),
                None => exists|i: int|
                    0 <= i < v@.len() && !(#[trigger] terms(v@)[i]).subst_fits(m@),
            },
        decreases v@,
    {
        let mut out: Vec<Term> = Vec::new();
        let mut i: usize = 0;
        while i < v.len()
            invariant
                i <= v@.len(),
                out@.len() == i,
                m.wf(),
                forall|j: int|
                    0 <= j < i ==> (#[trigger] terms(v@)[j]).subst_fits(m@) && out@[j]@
                        == terms(v@)[j].subst(m@),
            decreases v@.len() - i,
        {
            assert(decreases_to!(v@ => v@[i as int]));
            assert(terms(v@)[i as int] == v@[i as int]@);
            match v[i].substitute(m) {
                Some(t) => {
                    out.push(t);
                },
                None => {
                    return None;
                },
            }
            i += 1;
        }
        Some(out)
    }
}

impl Clone for Term {
    fn clone(&self) -> (r: Term)
        ensures
            r@ == self@,
    {
        self.dup()
    }
}

/// The pointer sort.
pub fn ptr_sort() -> (r: Sort)
    ensures
        r == Sort::Ptr,
{
    Sort::Ptr
}

/// The nil pointer.
pub fn ptr_nil() -> (r: Term)
    ensures
        r@ == TermV::PtrNil,
{
    Term::PtrNil
}

/// The nil test on a pointer; `None` on other sorts.
pub fn ptr_is_nil(t: Term) -> (r: Option<Term>)
    ensures
        opt_term(r) == mk_is_nil(t@),
{
    if t.sort() == Sort::Ptr {
        Some(Term::PtrIsNil(Box::new(t)))
    } else {
        None
    }
}

} // verus!
