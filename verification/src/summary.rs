//! Function summaries: what a function requires, ensures and does.
//!
//! Clause formulas are boolean terms over the function's symbolic interface, whose
//! variables are named `p<i>` (parameters) and `r<i>` (results).

use vstd::prelude::*;
use crate::annotations::{ann_clauses, AnnClause, FuncAnnotations};
use crate::effects::{effects_empty, effects_top, Effects, EffectsV};
use crate::ir::FuncId;
use crate::order::SortedMap;
use crate::term::{mk_not, opt_term, Sort, Term, TermV};
use crate::text::{chars_of, dec, dec_injective, numbered, parse_of_dec, parse_u32, parse_u32_spec};

verus! {

/// A variable of a function's symbolic interface.
#[derive(Debug, Clone, Copy, PartialEq, Eq, Structural)]
pub enum IfaceVar {
    Param(u32),
    Result(u32),
}

/// The name of an interface variable.
pub open spec fn iface_name(v: IfaceVar) -> Seq<char> {
    match v {
        IfaceVar::Param(i) => seq!['p'] + dec(i as nat),
        IfaceVar::Result(i) => seq!['r'] + dec(i as nat),
    }
}

/// The name of an interface variable in formulas.
pub fn iface_var_name(v: &IfaceVar) -> (r: String)
    ensures
        r@ == iface_name(*v),
{
    proof {
        reveal_strlit("p");
        reveal_strlit("r");
        assert("p"@ =~= seq!['p']);
        assert("r"@ =~= seq!['r']);
    }
    match v {
        IfaceVar::Param(i) => numbered("p", *i as u128),
        IfaceVar::Result(i) => numbered("r", *i as u128),
    }
}

/// A clause formula: a boolean term over interface variables.
#[derive(Debug, Clone, PartialEq, Eq)]
pub struct Formula {
    pub term: Term,
}

/// Where a clause or a summary comes from.
#[derive(Debug, Clone, Copy, PartialEq, Eq, Structural)]
pub enum Provenance {
    Inferred,
    Havoc,
    Annotated,
}

/// One requirement or guarantee.
#[derive(Debug, PartialEq, Eq)]
pub struct Clause {
    /// Which fact the clause states, such as "nil-deref".
    pub tag: String,
    pub formula: Formula,
    pub provenance: Provenance,
}

/// The model of a [`Clause`].
pub struct ClauseV {
    pub tag: Seq<char>,
    pub term: TermV,
    pub provenance: Provenance,
}

impl View for Clause {
    type V = ClauseV;

    open spec fn view(&self) -> ClauseV {
        ClauseV { tag: self.tag@, term: self.formula.term@, provenance: self.provenance }
    }
}

impl Clone for Clause {
    fn clone(&self) -> (r: Clause)
        ensures
            r@ == self@,
    {
        Clause {
            tag: self.tag.clone(),
            formula: Formula { term: self.formula.term.dup() },
            provenance: self.provenance,
        }
    }
}

/// The models of a vector of clauses.
pub open spec fn clauses(v: Seq<Clause>) -> Seq<ClauseV> {
    Seq::new(v.len(), |i: int| v[i]@)
}

/// A function's summary.
#[derive(Debug, PartialEq, Eq)]
pub struct Summary {
    pub requires_: Vec<Clause>,
    pub ensures_: Vec<Clause>,
    pub effects: Effects,
    pub provenance: Provenance,
}

/// The model of a [`Summary`].
pub struct SummaryV {
    pub requires_: Seq<ClauseV>,
    pub ensures_: Seq<ClauseV>,
    pub effects: EffectsV,
    pub provenance: Provenance,
}

impl View for Summary {
    type V = SummaryV;

    open spec fn view(&self) -> SummaryV {
        SummaryV {
            requires_: clauses(self.requires_@),
            ensures_: clauses(self.ensures_@),
            effects: self.effects@,
            provenance: self.provenance,
        }
    }
}

/// The summary of a function of which nothing is known: it requires nothing and may do
/// anything.
pub open spec fn summary_havoc() -> SummaryV {
    SummaryV {
        requires_: Seq::empty(),
        ensures_: Seq::empty(),
        effects: effects_top(),
        provenance: Provenance::Havoc,
    }
}

/// Summaries by function; a missing one is that of an unknown function.
#[derive(Debug, PartialEq, Eq)]
pub struct SummaryTable {
    pub entries: Vec<Option<Summary>>,
}

/// The model of a [`SummaryTable`].
pub struct TableV {
    pub entries: Seq<Option<SummaryV>>,
}

impl TableV {
    /// The summary of `f`.
    pub open spec fn summary(self, f: FuncId) -> SummaryV {
        if f.0 < self.entries.len() {
            match self.entries[f.0 as int] {
                Some(s) => s,
                None => summary_havoc(),
            }
        } else {
            summary_havoc()
        }
    }

    /// The effects of `f`.
    pub open spec fn effects_of(self, f: FuncId) -> EffectsV {
        self.summary(f).effects
    }
}

/// The model of a slot.
pub open spec fn slot_v(s: Option<Summary>) -> Option<SummaryV> {
    match s {
        Some(s) => Some(s@),
        None => None,
    }
}

impl View for SummaryTable {
    type V = TableV;

    open spec fn view(&self) -> TableV {
        TableV { entries: Seq::new(self.entries@.len(), |i: int| slot_v(self.entries@[i])) }
    }
}

impl SummaryTable {
    /// The effects maps are sorted.
    pub open spec fn wf(&self) -> bool {
        forall|i: int|
            0 <= i < self.entries@.len() && (#[trigger] self.entries@[i]) is Some
                ==> self.entries@[i].unwrap().effects.wf()
    }

    /// The summary of `f`.
    pub open spec fn summary(&self, f: FuncId) -> SummaryV {
        self@.summary(f)
    }

    /// The effects of `f`.
    pub open spec fn effects_of(&self, f: FuncId) -> EffectsV {
        self@.effects_of(f)
    }

    /// The summary of `f`, if there is one.
    pub fn get(&self, f: FuncId) -> (r: Option<&Summary>)
        requires
            self.wf(),
        ensures
            match r {
                Some(s) => self.summary(f) == s@ && s.effects.wf(),
                None => self.summary(f) == summary_havoc(),
            },
    {
        if (f.0 as usize) < self.entries.len() {
            match &self.entries[f.0 as usize] {
                Some(s) => Some(s),
                None => None,
            }
        } else {
            None
        }
    }

    /// The effects of `f`; `None` stands for all effects.
    pub fn effects(&self, f: FuncId) -> (r: Option<&Effects>)
        requires
            self.wf(),
        ensures
            match r {
                Some(e) => self.effects_of(f) == e@ && e.wf(),
                None => self.effects_of(f) == effects_top(),
            },
    {
        match self.get(f) {
            Some(s) => Some(&s.effects),
            None => None,
        }
    }
}

/// The summary to start from: nothing required, ensured or done.
pub open spec fn summary_default() -> SummaryV {
    SummaryV {
        requires_: Seq::empty(),
        ensures_: Seq::empty(),
        effects: effects_empty(),
        provenance: Provenance::Inferred,
    }
}

impl Default for Summary {
    fn default() -> (r: Summary)
        ensures
            r@ == summary_default(),
            r.effects.wf(),
    {
        let r = Summary {
            requires_: Vec::new(),
            ensures_: Vec::new(),
            effects: Effects::empty(),
            provenance: Provenance::Inferred,
        };
        assert(clauses(r.requires_@) =~= Seq::<ClauseV>::empty());
        assert(clauses(r.ensures_@) =~= Seq::<ClauseV>::empty());
        r
    }
}

impl Summary {
    /// The summary of a function of which nothing is known. It requires nothing, so that
    /// missing information never raises a finding, and it may do anything.
    pub fn havoc() -> (r: Summary)
        ensures
            r@ == summary_havoc(),
            r.effects.wf(),
    {
        let r = Summary {
            requires_: Vec::new(),
            ensures_: Vec::new(),
            effects: Effects::top(),
            provenance: Provenance::Havoc,
        };
        assert(clauses(r.requires_@) =~= Seq::<ClauseV>::empty());
        assert(clauses(r.ensures_@) =~= Seq::<ClauseV>::empty());
        r
    }

    /// Whether two summaries are the same.
    pub fn same(&self, other: &Summary) -> (r: bool)
        requires
            self.effects.wf(),
            other.effects.wf(),
        ensures
            r == (self@ == other@),
    {
        same_clauses(&self.requires_, &other.requires_) && same_clauses(
            &self.ensures_,
            &other.ensures_,
        ) && self.effects.same(&other.effects) && self.provenance == other.provenance
    }

    /// A copy.
    pub fn dup(&self) -> (r: Summary)
        requires
            self.effects.wf(),
        ensures
            r@ == self@,
            r.effects.wf(),
    {
        Summary {
            requires_: copy_clauses(&self.requires_),
            ensures_: copy_clauses(&self.ensures_),
            effects: self.effects.dup(),
            provenance: self.provenance,
        }
    }
}

/// Whether two clauses are the same.
pub fn same_clause(a: &Clause, b: &Clause) -> (r: bool)
    ensures
        r == (a@ == b@),
{
    a.tag == b.tag && a.formula.term.same(&b.formula.term) && a.provenance == b.provenance
}

fn same_clauses(a: &Vec<Clause>, b: &Vec<Clause>) -> (r: bool)
    ensures
        r == (clauses(a@) == clauses(b@)),
{
    assert(clauses(a@).len() == a@.len());
    assert(clauses(b@).len() == b@.len());
    if a.len() != b.len() {
        return false;
    }
    let mut i: usize = 0;
    while i < a.len()
        invariant
            i <= a@.len(),
            a@.len() == b@.len(),
            forall|j: int| 0 <= j < i ==> (#[trigger] a@[j])@ == b@[j]@,
        decreases a@.len() - i,
    {
        if !same_clause(&a[i], &b[i]) {
            assert(clauses(a@)[i as int] != clauses(b@)[i as int]);
            return false;
        }
        i += 1;
    }
    assert(clauses(a@) =~= clauses(b@));
    true
}

/// A copy of clauses.
pub fn copy_clauses(v: &Vec<Clause>) -> (r: Vec<Clause>)
    ensures
        clauses(r@) == clauses(v@),
{
    let mut out: Vec<Clause> = Vec::new();
    let mut i: usize = 0;
    while i < v.len()
        invariant
            i <= v@.len(),
            out@.len() == i,
            forall|j: int| 0 <= j < i ==> (#[trigger] out@[j])@ == v@[j]@,
        decreases v@.len() - i,
    {
        out.push(v[i].clone());
        i += 1;
    }
    assert(clauses(out@) =~= clauses(v@));
    out
}

/// Whether some clause states `t`.
pub open spec fn states(s: Seq<ClauseV>, t: TermV) -> bool {
    exists|i: int| 0 <= i < s.len() && (#[trigger] s[i]).term == t
}

/// `s` followed by those of the first `n` annotated clauses that state something new.
pub open spec fn merged(s: Seq<ClauseV>, ann: Seq<ClauseV>, n: int) -> Seq<ClauseV>
    decreases n,
{
    if n <= 0 {
        s
    } else {
        let before = merged(s, ann, n - 1);
        if states(before, ann[n - 1].term) {
            before
        } else {
            before.push(ann[n - 1])
        }
    }
}

/// `s` with a function's annotated clauses merged in.
pub open spec fn summary_merged(s: SummaryV, ann: Option<FuncAnnotations>) -> SummaryV {
    match ann {
        None => s,
        Some(a) => SummaryV {
            requires_: merged(s.requires_, ann_clauses(a.requires_@), a.requires_@.len() as int),
            ensures_: merged(s.ensures_, ann_clauses(a.ensures_@), a.ensures_@.len() as int),
            ..s
        },
    }
}

/// The summary of an unknown function that has annotations.
pub open spec fn summary_havoc_with(ann: Option<FuncAnnotations>) -> SummaryV {
    summary_merged(summary_havoc(), ann)
}

fn states_term(v: &Vec<Clause>, t: &Term) -> (r: bool)
    ensures
        r == states(clauses(v@), t@),
{
    let mut i: usize = 0;
    while i < v.len()
        invariant
            i <= v@.len(),
            forall|j: int| 0 <= j < i ==> (#[trigger] clauses(v@)[j]).term != t@,
        decreases v@.len() - i,
    {
        assert(clauses(v@)[i as int] == v@[i as int]@);
        if v[i].formula.term.same(t) {
            return true;
        }
        i += 1;
    }
    false
}

fn merge_list(v: &mut Vec<Clause>, ann: &Vec<AnnClause>)
    ensures
        clauses(final(v)@) == merged(clauses(old(v)@), ann_clauses(ann@), ann@.len() as int),
{
    let ghost start = clauses(v@);
    let mut i: usize = 0;
    while i < ann.len()
        invariant
            i <= ann@.len(),
            clauses(v@) == merged(start, ann_clauses(ann@), i as int),
        decreases ann@.len() - i,
    {
        assert(ann_clauses(ann@)[i as int] == ann@[i as int].clause@);
        if !states_term(v, &ann[i].clause.formula.term) {
            let ghost before = v@;
            v.push(ann[i].clause.clone());
            assert(clauses(v@) =~= clauses(before).push(ann@[i as int].clause@));
        }
        i += 1;
    }
}

/// Merges a function's annotated clauses into its summary. A clause whose formula is there
/// already is left out: the one that was inferred stays.
pub fn merge_annotations(s: &mut Summary, ann: Option<&FuncAnnotations>)
    ensures
        final(s)@ == summary_merged(old(s)@, (match ann {
            Some(a) => Some(*a),
            None => None,
        })),
        final(s).effects == old(s).effects,
{
    match ann {
        Some(a) => {
            merge_list(&mut s.requires_, &a.requires_);
            merge_list(&mut s.ensures_, &a.ensures_);
        },
        None => {},
    }
}

/// The summary of an unknown function that has annotations.
pub fn havoc_with(ann: Option<&FuncAnnotations>) -> (r: Summary)
    ensures
        r@ == summary_havoc_with((match ann {
            Some(a) => Some(*a),
            None => None,
        })),
        r.effects.wf(),
{
    let mut s = Summary::havoc();
    merge_annotations(&mut s, ann);
    s
}

proof fn lemma_merged_keeps(s: Seq<ClauseV>, ann: Seq<ClauseV>, n: int)
    requires
        0 <= n <= ann.len(),
    ensures
        merged(s, ann, n).len() >= s.len(),
        forall|i: int| 0 <= i < s.len() ==> #[trigger] merged(s, ann, n)[i] == s[i],
        forall|i: int| 0 <= i < n ==> states(merged(s, ann, n), (#[trigger] ann[i]).term),
        forall|i: int|
            s.len() <= i < merged(s, ann, n).len() ==> ann.contains(
                #[trigger] merged(s, ann, n)[i],
            ),
    decreases n,
{
    if n > 0 {
        lemma_merged_keeps(s, ann, n - 1);
        let before = merged(s, ann, n - 1);
        let after = merged(s, ann, n);
        assert forall|i: int| 0 <= i < n implies states(after, (#[trigger] ann[i]).term) by {
            if i < n - 1 {
                assert(states(before, ann[i].term));
                let j = choose|j: int|
                    0 <= j < before.len() && (#[trigger] before[j]).term == ann[i].term;
                assert(after[j].term == ann[i].term);
            } else if !states(before, ann[i].term) {
                assert(after[before.len() as int].term == ann[i].term);
            }
        }
        assert forall|i: int| s.len() <= i < after.len() implies ann.contains(#[trigger] after[i]) by {
            if i < before.len() {
                assert(after[i] == before[i]);
            } else {
                assert(after[i] == ann[n - 1]);
            }
        }
    }
}

/// Merging keeps what was there, in place, makes the result state every annotated clause, and
/// adds nothing else.
pub proof fn merge_keeps_and_states(s: SummaryV, ann: FuncAnnotations)
    ensures
        forall|i: int|
            0 <= i < s.requires_.len() ==> #[trigger] summary_merged(s, Some(ann)).requires_[i]
                == s.requires_[i],
        forall|i: int|
            0 <= i < ann.requires_@.len() ==> states(
                summary_merged(s, Some(ann)).requires_,
                (#[trigger] ann_clauses(ann.requires_@)[i]).term,
            ),
        forall|i: int|
            0 <= i < ann.ensures_@.len() ==> states(
                summary_merged(s, Some(ann)).ensures_,
                (#[trigger] ann_clauses(ann.ensures_@)[i]).term,
            ),
        forall|i: int|
            s.requires_.len() <= i < summary_merged(s, Some(ann)).requires_.len() ==> ann_clauses(
                ann.requires_@,
            ).contains(#[trigger] summary_merged(s, Some(ann)).requires_[i]),
        summary_merged(s, Some(ann)).effects == s.effects,
        summary_merged(s, Some(ann)).provenance == s.provenance,
{
    lemma_merged_keeps(s.requires_, ann_clauses(ann.requires_@), ann.requires_@.len() as int);
    lemma_merged_keeps(s.ensures_, ann_clauses(ann.ensures_@), ann.ensures_@.len() as int);
}

/// A summary of an unknown function requires nothing but what annotations state.
pub proof fn havoc_requires_annotations_only(ann: Option<FuncAnnotations>)
    ensures
        ann is None ==> summary_havoc_with(ann).requires_.len() == 0,
        ann is Some ==> forall|i: int|
            0 <= i < summary_havoc_with(ann).requires_.len() ==> ann_clauses(
                ann.unwrap().requires_@,
            ).contains(#[trigger] summary_havoc_with(ann).requires_[i]),
        summary_havoc_with(ann).effects == effects_top(),
        summary_havoc_with(ann).provenance == Provenance::Havoc,
{
    if let Some(a) = ann {
        merge_keeps_and_states(summary_havoc(), a);
    }
}

/// A clause instantiated at a call site, with its negation. Both are `None` where the clause
/// cannot be evaluated there, and then nothing may be reported.
#[derive(Debug, PartialEq, Eq)]
pub struct BoundClause {
    pub tag: String,
    pub bound: Option<Term>,
    pub violation: Option<Term>,
}

/// The model of a [`BoundClause`].
pub struct BoundV {
    pub tag: Seq<char>,
    pub bound: Option<TermV>,
    pub violation: Option<TermV>,
}

impl View for BoundClause {
    type V = BoundV;

    open spec fn view(&self) -> BoundV {
        BoundV {
            tag: self.tag@,
            bound: opt_term(self.bound),
            violation: opt_term(self.violation),
        }
    }
}

/// The models of optional terms.
pub open spec fn opt_terms(v: Seq<Option<Term>>) -> Seq<Option<TermV>> {
    Seq::new(v.len(), |i: int| opt_term(v[i]))
}

/// What stands for slot `i` of `s`.
pub open spec fn term_slot(s: Seq<Option<TermV>>, i: Option<u32>) -> Option<TermV> {
    match i {
        Some(k) => if k < s.len() { s[k as int] } else { None },
        None => None,
    }
}

/// The caller's term for the interface variable `name`: `p<i>` is argument `i`, `r<i>` is
/// result `i`, any other name has none.
pub open spec fn binding(
    name: Seq<char>,
    args: Seq<Option<TermV>>,
    results: Seq<Option<TermV>>,
) -> Option<TermV> {
    if name.len() > 0 && name[0] == 'p' {
        term_slot(args, parse_u32_spec(name.skip(1)))
    } else if name.len() > 0 && name[0] == 'r' {
        term_slot(results, parse_u32_spec(name.skip(1)))
    } else {
        None
    }
}

/// Whether the caller has a term for every variable of `t`.
pub open spec fn bindable(
    t: TermV,
    args: Seq<Option<TermV>>,
    results: Seq<Option<TermV>>,
) -> bool {
    forall|n: Seq<char>| #[trigger] t.vars().contains_key(n) ==> binding(n, args, results) is Some
}

/// The caller's terms for the variables of `t`.
pub open spec fn binding_map(
    t: TermV,
    args: Seq<Option<TermV>>,
    results: Seq<Option<TermV>>,
) -> Map<Seq<char>, TermV> {
    Map::new(
        |n: Seq<char>| t.vars().contains_key(n),
        |n: Seq<char>| binding(n, args, results).unwrap(),
    )
}

/// `t` over the caller's terms: there where every variable has a term of its sort and the
/// result is boolean.
pub open spec fn bound_term(
    t: TermV,
    args: Seq<Option<TermV>>,
    results: Seq<Option<TermV>>,
) -> Option<TermV> {
    let m = binding_map(t, args, results);
    if bindable(t, args, results) && t.subst_fits(m) && t.subst(m).sort() == Sort::Bool {
        Some(t.subst(m))
    } else {
        None
    }
}

/// The negation of a bound clause.
pub open spec fn negated(t: Option<TermV>) -> Option<TermV> {
    match t {
        Some(b) => mk_not(b),
        None => None,
    }
}

/// `c` instantiated at a call site.
pub open spec fn bound_clause(
    c: ClauseV,
    args: Seq<Option<TermV>>,
    results: Seq<Option<TermV>>,
) -> BoundV {
    BoundV {
        tag: c.tag,
        bound: bound_term(c.term, args, results),
        violation: negated(bound_term(c.term, args, results)),
    }
}

/// All of `s` instantiated at a call site.
pub open spec fn bound_all(
    s: Seq<ClauseV>,
    args: Seq<Option<TermV>>,
    results: Seq<Option<TermV>>,
) -> Seq<BoundV> {
    Seq::new(s.len(), |i: int| bound_clause(s[i], args, results))
}

/// The models of a vector of bound clauses.
pub open spec fn bounds_v(v: Seq<BoundClause>) -> Seq<BoundV> {
    Seq::new(v.len(), |i: int| v[i]@)
}

/// The first of the first `n` terms that is listed under `k`.
pub open spec fn entry_upto(s: Seq<(u32, Term)>, k: u32, n: nat) -> Option<TermV>
    decreases n,
{
    if n == 0 {
        None
    } else {
        match entry_upto(s, k, (n - 1) as nat) {
            Some(t) => Some(t),
            None => if s[n - 1].0 == k { Some(s[n - 1].1@) } else { None },
        }
    }
}

/// Whether a list of terms by index holds what the slots hold.
pub open spec fn stands_for(s: Seq<(u32, Term)>, slots: Seq<Option<TermV>>) -> bool {
    forall|k: u32| #[trigger] entry_upto(s, k, s.len()) == term_slot(slots, Some(k))
}

/// What a list holds up to some place does not depend on what follows.
pub proof fn lemma_entry_prefix(s: Seq<(u32, Term)>, u: Seq<(u32, Term)>, n: nat)
    requires
        n <= s.len() <= u.len(),
        forall|i: int| 0 <= i < n ==> s[i] == #[trigger] u[i],
    ensures
        forall|k: u32| #[trigger] entry_upto(u, k, n) == entry_upto(s, k, n),
    decreases n,
{
    if n > 0 {
        let b = (n - 1) as nat;
        lemma_entry_prefix(s, u, b);
        assert forall|k: u32| #[trigger] entry_upto(u, k, n) == entry_upto(s, k, n) by {
            assert(entry_upto(u, k, b) == entry_upto(s, k, b));
            assert(s[n - 1] == u[n - 1]);
        }
    }
}

/// The terms of results: one in each slot, or a list by index.
enum Results<'a> {
    Slots(&'a Vec<Option<Term>>),
    Listed(&'a Vec<(u32, Term)>),
}

impl<'a> Results<'a> {
    spec fn are(&self, slots: Seq<Option<TermV>>) -> bool {
        match *self {
            Results::Slots(v) => opt_terms(v@) == slots,
            Results::Listed(v) => stands_for(v@, slots),
        }
    }

    fn term(&self, i: Option<u32>, Ghost(slots): Ghost<Seq<Option<TermV>>>) -> (r: Option<Term>)
        requires
            self.are(slots),
        ensures
            opt_term(r) == term_slot(slots, i),
    {
        let v = match self {
            Results::Slots(v) => {
                return slot_term(v, i);
            },
            Results::Listed(v) => v,
        };
        let k = match i {
            Some(k) => k,
            None => {
                return None;
            },
        };
        let mut j: usize = 0;
        while j < v.len()
            invariant
                j <= v@.len(),
                i == Some(k),
                stands_for(v@, slots),
                entry_upto(v@, k, j as nat) is None,
            decreases v@.len() - j,
        {
            if v[j].0 == k {
                proof {
                    lemma_entry_stays(v@, k, j as nat + 1, v@.len());
                }
                return Some(v[j].1.dup());
            }
            j += 1;
        }
        None
    }
}

proof fn lemma_entry_stays(s: Seq<(u32, Term)>, k: u32, m: nat, n: nat)
    requires
        m <= n,
        entry_upto(s, k, m) is Some,
    ensures
        entry_upto(s, k, n) == entry_upto(s, k, m),
    decreases n,
{
    if m < n {
        lemma_entry_stays(s, k, m, (n - 1) as nat);
    }
}

fn slot_term(v: &Vec<Option<Term>>, i: Option<u32>) -> (r: Option<Term>)
    ensures
        opt_term(r) == term_slot(opt_terms(v@), i),
{
    match i {
        Some(k) => if (k as usize) < v.len() {
            match &v[k as usize] {
                Some(t) => Some(t.dup()),
                None => None,
            }
        } else {
            None
        },
        None => None,
    }
}

fn bind_name(
    name: &String,
    args: &Vec<Option<Term>>,
    results: &Results,
    Ghost(rv): Ghost<Seq<Option<TermV>>>,
) -> (r: Option<Term>)
    requires
        results.are(rv),
    ensures
        opt_term(r) == binding(name@, opt_terms(args@), rv),
{
    let cs = chars_of(name.as_str());
    if cs.len() > 0 && cs[0] == 'p' {
        slot_term(args, parse_u32(&cs, 1))
    } else if cs.len() > 0 && cs[0] == 'r' {
        results.term(parse_u32(&cs, 1), Ghost(rv))
    } else {
        None
    }
}

/// The formula over the caller's terms, with its negation.
fn bind_with(
    f: &Formula,
    args: &Vec<Option<Term>>,
    results: &Results,
    Ghost(rv): Ghost<Seq<Option<TermV>>>,
) -> (r: Option<(Term, Term)>)
    requires
        results.are(rv),
    ensures
        match r {
            Some((b, v)) => bound_term(f.term@, opt_terms(args@), rv) == Some(b@) && mk_not(b@)
                == Some(v@),
            None => bound_term(f.term@, opt_terms(args@), rv) is None,
        },
{
    let vars = f.term.free_vars();
    let ghost av = opt_terms(args@);
    let ghost items = vars.items();
    let mut m: SortedMap<String, Term> = SortedMap::new();
    let mut i: usize = 0;
    proof {
        vars.lemma_items();
    }
    while i < vars.len()
        invariant
            i <= items.len(),
            items == vars.items(),
            vars.wf(),
            vars@ == f.term@.vars(),
            av == opt_terms(args@),
            results.are(rv),
            m.wf(),
            forall|j: int| 0 <= j < items.len() ==> vars@.contains_key((#[trigger] items[j]).0),
            forall|n: Seq<char>| #[trigger]
                m@.contains_key(n) ==> binding(n, av, rv) == Some(m@[n]) && vars@.contains_key(n),
            forall|j: int| 0 <= j < i ==> m@.contains_key((#[trigger] items[j]).0),
        decreases items.len() - i,
    {
        let name = vars.key_at(i);
        match bind_name(name, args, results, Ghost(rv)) {
            Some(t) => {
                m.insert(name.clone(), t);
            },
            None => {
                assert(f.term@.vars().contains_key(items[i as int].0));
                return None;
            },
        }
        i += 1;
    }
    proof {
        let bm = binding_map(f.term@, av, rv);
        assert forall|n: Seq<char>| #[trigger] m@.contains_key(n) == bm.contains_key(n) by {
            if vars@.contains_key(n) {
                let j = choose|j: int| 0 <= j < items.len() && #[trigger] items[j] == (n, vars@[n]);
                assert(m@.contains_key(items[j].0));
            }
        }
        assert(m@.dom() =~= bm.dom());
        assert(m@ =~= bm);
        assert forall|n: Seq<char>| #[trigger] f.term@.vars().contains_key(n) implies binding(
            n,
            av,
            rv,
        ) is Some by {
            assert(m@.contains_key(n));
        }
    }
    match f.term.substitute(&m) {
        Some(b) => {
            match Term::not(b.dup()) {
                Some(v) => Some((b, v)),
                None => None,
            }
        },
        None => None,
    }
}

fn bind_each(
    cs: &Vec<Clause>,
    args: &Vec<Option<Term>>,
    results: &Results,
    Ghost(rv): Ghost<Seq<Option<TermV>>>,
) -> (r: Vec<BoundClause>)
    requires
        results.are(rv),
    ensures
        bounds_v(r@) == bound_all(clauses(cs@), opt_terms(args@), rv),
{
    let mut out: Vec<BoundClause> = Vec::new();
    let ghost av = opt_terms(args@);
    let mut i: usize = 0;
    while i < cs.len()
        invariant
            i <= cs@.len(),
            out@.len() == i,
            av == opt_terms(args@),
            results.are(rv),
            forall|j: int| 0 <= j < i ==> (#[trigger] out@[j])@ == bound_clause(cs@[j]@, av, rv),
        decreases cs@.len() - i,
    {
        let b = match bind_with(&cs[i].formula, args, results, Ghost(rv)) {
            Some((b, v)) => BoundClause {
                tag: cs[i].tag.clone(),
                bound: Some(b),
                violation: Some(v),
            },
            None => BoundClause { tag: cs[i].tag.clone(), bound: None, violation: None },
        };
        out.push(b);
        i += 1;
    }
    assert(bounds_v(out@) =~= bound_all(clauses(cs@), av, rv));
    out
}

/// Each of `cs` over the caller's terms.
pub fn bind_clauses(cs: &Vec<Clause>, args: &Vec<Option<Term>>, results: &Vec<Option<Term>>) -> (r: Vec<
    BoundClause,
>)
    ensures
        bounds_v(r@) == bound_all(clauses(cs@), opt_terms(args@), opt_terms(results@)),
{
    bind_each(cs, args, &Results::Slots(results), Ghost(opt_terms(results@)))
}

/// Each of `cs` over the caller's terms, those of results listed by index.
pub(crate) fn bind_listed(
    cs: &Vec<Clause>,
    args: &Vec<Option<Term>>,
    results: &Vec<(u32, Term)>,
    Ghost(rv): Ghost<Seq<Option<TermV>>>,
) -> (r: Vec<BoundClause>)
    requires
        stands_for(results@, rv),
    ensures
        bounds_v(r@) == bound_all(clauses(cs@), opt_terms(args@), rv),
{
    bind_each(cs, args, &Results::Listed(results), Ghost(rv))
}

/// The requirements of a callee at a call with these arguments. A clause about a result
/// cannot be evaluated before the call.
pub fn instantiate_requires(callee: &Summary, arg_terms: &Vec<Option<Term>>) -> (r: Vec<BoundClause>)
    ensures
        bounds_v(r@) == bound_all(callee@.requires_, opt_terms(arg_terms@), Seq::empty()),
{
    let none: Vec<Option<Term>> = Vec::new();
    assert(opt_terms(none@) =~= Seq::<Option<TermV>>::empty());
    bind_clauses(&callee.requires_, arg_terms, &none)
}

/// The guarantees of a callee at a call with these arguments and results.
pub fn instantiate_ensures(
    callee: &Summary,
    arg_terms: &Vec<Option<Term>>,
    result_terms: &Vec<Option<Term>>,
) -> (r: Vec<BoundClause>)
    ensures
        bounds_v(r@) == bound_all(callee@.ensures_, opt_terms(arg_terms@), opt_terms(result_terms@)),
{
    bind_clauses(&callee.ensures_, arg_terms, result_terms)
}

/// `p<i>` stands for argument `i` and nothing else.
pub proof fn param_binds_argument(i: u32, args: Seq<Option<TermV>>, results: Seq<Option<TermV>>)
    ensures
        binding(iface_name(IfaceVar::Param(i)), args, results) == (if i < args.len() {
            args[i as int]
        } else {
            None
        }),
        binding(iface_name(IfaceVar::Result(i)), args, results) == (if i < results.len() {
            results[i as int]
        } else {
            None
        }),
{
    parse_of_dec(i);
    assert(iface_name(IfaceVar::Param(i)).skip(1) =~= dec(i as nat));
    assert(iface_name(IfaceVar::Result(i)).skip(1) =~= dec(i as nat));
}

/// A requirement that speaks of a result is never evaluated at a call, so it is never
/// reported.
pub proof fn result_clause_has_no_violation(c: ClauseV, i: u32, args: Seq<Option<TermV>>)
    requires
        c.term.vars().contains_key(iface_name(IfaceVar::Result(i))),
    ensures
        bound_clause(c, args, Seq::empty()).bound is None,
        bound_clause(c, args, Seq::empty()).violation is None,
{
    param_binds_argument(i, args, Seq::empty());
}

/// A clause about an argument of which the caller knows nothing is never reported.
pub proof fn unknown_argument_has_no_violation(
    c: ClauseV,
    i: u32,
    args: Seq<Option<TermV>>,
    results: Seq<Option<TermV>>,
)
    requires
        c.term.vars().contains_key(iface_name(IfaceVar::Param(i))),
        i < args.len() ==> args[i as int] is None,
    ensures
        bound_clause(c, args, results).bound is None,
        bound_clause(c, args, results).violation is None,
{
    param_binds_argument(i, args, results);
}

/// Different interface variables have different names.
pub proof fn iface_names_differ(a: IfaceVar, b: IfaceVar)
    requires
        iface_name(a) == iface_name(b),
    ensures
        a == b,
{
    let x = iface_name(a);
    let y = iface_name(b);
    assert(x[0] == y[0]);
    assert(x.skip(1) =~= y.skip(1));
    match (a, b) {
        (IfaceVar::Param(i), IfaceVar::Param(j)) => {
            assert(x.skip(1) =~= dec(i as nat));
            assert(y.skip(1) =~= dec(j as nat));
            dec_injective(i as nat, j as nat);
        },
        (IfaceVar::Result(i), IfaceVar::Result(j)) => {
            assert(x.skip(1) =~= dec(i as nat));
            assert(y.skip(1) =~= dec(j as nat));
            dec_injective(i as nat, j as nat);
        },
        _ => {},
    }
}

} // verus!
