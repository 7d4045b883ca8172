//! Gated-SSA encoding of a function: block guards, phi as conditional, back edges cut, so
//! that a loop is analysed as its first iteration.
//!
//! What is not modelled is left unconstrained: its value is declared and nothing is asserted
//! of it.

use vstd::prelude::*;
use crate::dfs::{
    acyclic, cut_back_edges_visited, ints, is_cut, is_cut_unique, is_topo, is_topo_unique,
    topo_order,
};
use crate::graph::{adj, succ_graph};
use crate::ir::{
    first_index, position_of, Callee, ConstVal, FuncId, Function, Op, Program, SelectArm, Site,
    TypeId, ValueId, ValueKind,
};
use crate::ops::{op_def, op_def_of};
use crate::order::SortedMap;
use crate::query::{consts_v, sort_consts, sorted_consts, Const, Query, QueryV};
use crate::summary::{
    bind_listed, binding, bound_all, bounds_v, entry_upto, iface_name, iface_var_name,
    lemma_entry_prefix, opt_terms, param_binds_argument, stands_for, term_slot, ClauseV, IfaceVar,
    Provenance, SummaryTable, SummaryV, TableV,
};
use crate::term::{
    lit_limit, mk_and, mk_cap, mk_compare, mk_eq, mk_len, mk_not, mk_or, mk_seq, opt_term, ptr_nil,
    t_eq, terms, BvCmpOp, Sort, Term, TermV,
};
use crate::text::{dec, numbered};
use crate::types::{int_repr, int_repr_of, int_widths, sort_of, sort_of_type};

verus! {

/// A function with more assertions than this is not analysed.
pub const ASSERT_CAP: usize = 50_000;

/// The encoding of a function.
#[derive(Debug)]
pub struct EncodedFunc {
    /// Declared constants, in the order of declaration.
    pub consts: Vec<Const>,
    pub asserts: Vec<Term>,
    /// One guard per block: true when the block is reached.
    pub guards: Vec<Term>,
    /// The term of each modelled value.
    pub values: SortedMap<ValueId, Term>,
    /// The successors of each block with back edges cut.
    pub dag_succs: Vec<Vec<u32>>,
}

/// The model of an [`EncodedFunc`].
#[verifier::ext_equal]
pub struct EncodedV {
    pub consts: Seq<(Seq<char>, Sort)>,
    pub asserts: Seq<TermV>,
    pub guards: Seq<TermV>,
    pub values: Map<ValueId, TermV>,
    pub dag: Seq<Seq<u32>>,
}

impl View for EncodedFunc {
    type V = EncodedV;

    open spec fn view(&self) -> EncodedV {
        EncodedV {
            consts: consts_v(self.consts@),
            asserts: terms(self.asserts@),
            guards: terms(self.guards@),
            values: self.values@,
            dag: adj(self.dag_succs@),
        }
    }
}

impl EncodedV {
    /// The term of `v`.
    pub open spec fn value(self, v: ValueId) -> Option<TermV> {
        if self.values.contains_key(v) { Some(self.values[v]) } else { None }
    }

    /// The guard of block `b`.
    pub open spec fn guard(self, b: int) -> Option<TermV> {
        if 0 <= b < self.guards.len() { Some(self.guards[b]) } else { None }
    }

    /// With `t` asserted.
    pub open spec fn with(self, t: TermV) -> EncodedV {
        EncodedV { asserts: self.asserts.push(t), ..self }
    }

    /// With `t` asserted, if it is there.
    pub open spec fn with_opt(self, t: Option<TermV>) -> EncodedV {
        match t {
            Some(t) => self.with(t),
            None => self,
        }
    }

    /// With a constant declared.
    pub open spec fn declaring(self, name: Seq<char>, sort: Sort) -> EncodedV {
        EncodedV { consts: self.consts.push((name, sort)), ..self }
    }

    /// The query whether block `block` is reached with `extra` true.
    pub open spec fn reach(self, block: int, extra: Seq<TermV>) -> QueryV {
        QueryV {
            consts: sorted_consts(self.consts),
            asserts: self.asserts + opt_seq(self.guard(block)) + extra,
        }
    }
}

/// The sequence of what is there.
pub open spec fn opt_seq<T>(o: Option<T>) -> Seq<T> {
    match o {
        Some(t) => seq![t],
        None => Seq::empty(),
    }
}

/// The name of the guard of block `b`.
pub open spec fn guard_name_of(b: int) -> Seq<char> {
    "g"@ + dec(b as nat)
}

/// The name of the unmodelled condition of the branch that ends block `b`.
pub open spec fn havoc_name_of(b: int) -> Seq<char> {
    "hc"@ + dec(b as nat)
}

/// The name of a value: parameters have their interface name.
pub open spec fn value_name_of(f: &Function, v: ValueId) -> Seq<char> {
    match first_index(f.params@, v, 0) {
        Some(i) => iface_name(IfaceVar::Param(i as u32)),
        None => "v"@ + dec(v.0 as nat),
    }
}

impl EncodedFunc {
    /// The value map is sorted.
    pub open spec fn wf(&self) -> bool {
        self.values.wf()
    }

    /// The term of `v`, if it is modelled.
    pub fn value(&self, v: ValueId) -> (r: Option<&Term>)
        requires
            self.wf(),
        ensures
            match r {
                Some(t) => self@.value(v) == Some(t@),
                None => self@.value(v) is None,
            },
    {
        self.values.get(&v)
    }

    /// A copy of the term of `v`, if it is modelled.
    pub fn value_term(&self, v: ValueId) -> (r: Option<Term>)
        requires
            self.wf(),
        ensures
            opt_term(r) == self@.value(v),
    {
        match self.values.get(&v) {
            Some(t) => Some(t.dup()),
            None => None,
        }
    }

    /// A copy of the guard of block `b`.
    pub fn guard_term(&self, b: usize) -> (r: Option<Term>)
        ensures
            opt_term(r) == self@.guard(b as int),
    {
        if b < self.guards.len() {
            Some(self.guards[b].dup())
        } else {
            None
        }
    }

    fn add(&mut self, t: Term)
        requires
            old(self).wf(),
        ensures
            final(self).wf(),
            final(self)@ == old(self)@.with(t@),
    {
        let ghost before = self.asserts@;
        self.asserts.push(t);
        assert(terms(self.asserts@) =~= terms(before).push(t@));
    }

    fn add_opt(&mut self, t: Option<Term>)
        requires
            old(self).wf(),
        ensures
            final(self).wf(),
            final(self)@ == old(self)@.with_opt(opt_term(t)),
    {
        match t {
            Some(t) => self.add(t),
            None => {},
        }
    }

    fn declare(&mut self, name: String, sort: Sort)
        requires
            old(self).wf(),
        ensures
            final(self).wf(),
            final(self)@ == old(self)@.declaring(name@, sort),
    {
        let ghost before = self.consts@;
        self.consts.push((name, sort));
        assert(consts_v(self.consts@) =~= consts_v(before).push((name@, sort)));
    }

    /// The query whether block `block` is reached with `extra` true: all that the encoding
    /// asserts, the block's guard, and `extra`. Constants are sorted.
    pub fn reach_query(&self, block: usize, extra: Vec<Term>) -> (r: Query)
        ensures
            r@ == self@.reach(block as int, terms(extra@)),
    {
        let mut asserts = Term::dup_list(&self.asserts);
        let ghost a0 = terms(asserts@);
        if block < self.guards.len() {
            let ghost before = asserts@;
            asserts.push(self.guards[block].dup());
            assert(terms(asserts@) =~= terms(before).push(self.guards@[block as int]@));
        }
        let ghost g = opt_seq(self@.guard(block as int));
        assert(terms(asserts@) =~= a0 + g);
        let ghost ex = terms(extra@);
        let mut rest = extra;
        let ghost before = asserts@;
        asserts.append(&mut rest);
        assert(terms(asserts@) =~= a0 + g + ex);
        Query { consts: sort_consts(&self.consts), asserts }
    }
}

fn guard_name(b: usize) -> (r: String)
    ensures
        r@ == guard_name_of(b as int),
{
    numbered("g", b as u128)
}

fn havoc_name(b: usize) -> (r: String)
    ensures
        r@ == havoc_name_of(b as int),
{
    numbered("hc", b as u128)
}

fn value_name(f: &Function, v: ValueId) -> (r: String)
    ensures
        r@ == value_name_of(f, v),
{
    match position_of(&f.params, v) {
        Some(i) => iface_var_name(&IfaceVar::Param(i as u32)),
        None => numbered("v", v.0 as u128),
    }
}

// ---- Values ----

/// Whether `v` is made by a slice expression.
pub open spec fn slice_made(f: &Function, v: ValueId) -> bool {
    exists|k: int|
        0 <= k < f.sites().len() && (f.op_at(#[trigger] f.sites()[k]) matches Op::Slice { dst, .. }
            && dst == v)
}

/// The slice value with this length and capacity.
pub open spec fn seq_lit_of(len: int, cap: int) -> Option<TermV> {
    mk_seq(TermV::BvLit(64, len as u128), TermV::BvLit(64, cap as u128))
}

/// `i` as a bitvector of width `w`: two's complement.
pub open spec fn wrapped(i: int, w: u32) -> u128 {
    (i % lit_limit(w)) as u128
}

/// The term of a constant of type `ty`.
pub open spec fn const_term_of(p: &Program, ty: TypeId, c: ConstVal) -> Option<TermV> {
    match c {
        ConstVal::Bool(b) => Some(TermV::BoolLit(b)),
        ConstVal::Int(i) => match int_repr_of(&p.types, ty) {
            Some((w, s)) => Some(TermV::BvLit(w, wrapped(i as int, w))),
            None => None,
        },
        ConstVal::Nil => match sort_of_type(&p.types, ty) {
            Some(Sort::Ptr) => Some(TermV::PtrNil),
            Some(Sort::GoSeq) => seq_lit_of(0, 0),
            _ => None,
        },
        ConstVal::Str(bytes) => seq_lit_of(bytes@.len() as int, bytes@.len() as int),
        _ => None,
    }
}

/// `0 <= len <= cap` of a slice value.
pub open spec fn seq_invariant_of(t: TermV) -> Option<TermV> {
    match (mk_len(t), mk_cap(t)) {
        (Some(l), Some(c)) => mk_compare(BvCmpOp::Ule, l, c),
        _ => None,
    }
}

/// What is asserted of a constant: that it equals its literal.
pub open spec fn const_def(p: &Program, f: &Function, v: ValueId, t: TermV) -> Option<TermV> {
    match f.kind_of(v) {
        ValueKind::Const(c) => match const_term_of(p, f.type_of(v), c) {
            Some(lit) => mk_eq(t, lit),
            None => None,
        },
        _ => None,
    }
}

/// `e` with `v` declared, if its type is modelled and it is not declared yet. A slice value
/// satisfies `len <= cap`, but for one that a slice expression makes: there the bounds may
/// be violated, and that is what is looked for. A constant equals its literal.
pub open spec fn declared(p: &Program, f: &Function, e: EncodedV, v: ValueId) -> EncodedV {
    if e.values.contains_key(v) {
        e
    } else {
        match sort_of_type(&p.types, f.type_of(v)) {
            None => e,
            Some(sort) => {
                let t = TermV::Var(value_name_of(f, v), sort);
                let e1 = e.declaring(value_name_of(f, v), sort);
                let e2 = if sort == Sort::GoSeq && !slice_made(f, v) {
                    e1.with_opt(seq_invariant_of(t))
                } else {
                    e1
                };
                let e3 = e2.with_opt(const_def(p, f, v, t));
                EncodedV { values: e3.values.insert(v, t), ..e3 }
            },
        }
    }
}

fn is_slice_derived(f: &Function, v: ValueId) -> (r: bool)
    ensures
        r == slice_made(f, v),
{
    let sites = f.all_sites();
    let mut k: usize = 0;
    while k < sites.len()
        invariant
            k <= sites@.len(),
            sites@ == f.sites(),
            forall|k: int| 0 <= k < sites@.len() ==> f.has_site(#[trigger] sites@[k]),
            forall|j: int|
                0 <= j < k ==> !(f.op_at(#[trigger] f.sites()[j]) matches Op::Slice { dst, .. } && dst
                    == v),
        decreases sites@.len() - k,
    {
        if let Op::Slice { dst, .. } = f.op(sites[k]) {
            if *dst == v {
                return true;
            }
        }
        k += 1;
    }
    false
}

fn seq_lit(len: u64, cap: u64) -> (r: Option<Term>)
    ensures
        opt_term(r) == seq_lit_of(len as int, cap as int),
{
    Term::seq_val(Term::bv_lit(64, len as u128), Term::bv_lit(64, cap as u128))
}

/// `i` reduced to width `w`.
pub fn wrap_int(i: i64, w: u32) -> (r: u128)
    requires
        w == 8 || w == 16 || w == 32 || w == 64,
    ensures
        r == wrapped(i as int, w),
{
    let m: u128 = if w == 8 {
        0x100
    } else if w == 16 {
        0x1_0000
    } else if w == 32 {
        0x1_0000_0000
    } else {
        0x1_0000_0000_0000_0000
    };
    if i >= 0 {
        (i as u128) % m
    } else {
        // -(i + 1) does not overflow
        let k: u128 = (-(i + 1)) as u128;
        m - 1 - k % m
    }
}

fn const_term(p: &Program, ty: TypeId, c: &ConstVal) -> (r: Option<Term>)
    ensures
        opt_term(r) == const_term_of(p, ty, *c),
{
    match c {
        ConstVal::Bool(b) => Some(Term::bool_lit(*b)),
        ConstVal::Int(i) => match int_repr(&p.types, ty) {
            Some((w, _)) => {
                proof {
                    int_widths(&p.types, ty);
                }
                Some(Term::bv_lit(w, wrap_int(*i, w)))
            },
            None => None,
        },
        ConstVal::Nil => match sort_of(&p.types, ty) {
            Some(Sort::Ptr) => Some(ptr_nil()),
            Some(Sort::GoSeq) => seq_lit(0, 0),
            _ => None,
        },
        ConstVal::Str(bytes) => seq_lit(bytes.len() as u64, bytes.len() as u64),
        _ => None,
    }
}

fn seq_invariant(t: &Term) -> (r: Option<Term>)
    ensures
        opt_term(r) == seq_invariant_of(t@),
{
    match (Term::seq_len(t.dup()), Term::seq_cap(t.dup())) {
        (Some(l), Some(c)) => Term::bv_compare(BvCmpOp::Ule, l, c),
        _ => None,
    }
}

fn declare_value(p: &Program, f: &Function, v: ValueId, enc: &mut EncodedFunc)
    requires
        old(enc).wf(),
    ensures
        final(enc).wf(),
        final(enc)@ == declared(p, f, old(enc)@, v),
{
    if enc.values.get(&v).is_some() {
        return;
    }
    let sort = match sort_of(&p.types, f.value_type(v)) {
        Some(s) => s,
        None => {
            return;
        },
    };
    let name = value_name(f, v);
    let t = Term::var(name.as_str(), sort);
    enc.declare(name, sort);
    if sort == Sort::GoSeq && !is_slice_derived(f, v) {
        enc.add_opt(seq_invariant(&t));
    }
    let def = match f.value_kind(v) {
        Some(ValueKind::Const(c)) => match const_term(p, f.value_type(v), c) {
            Some(lit) => Term::eq(t.dup(), lit),
            None => None,
        },
        _ => None,
    };
    assert(opt_term(def) == const_def(p, f, v, t@));
    enc.add_opt(def);
    enc.values.insert(v, t);
}

/// The values of the first `n` arms of a select: channels and values sent.
pub open spec fn arm_values(arms: Seq<SelectArm>, n: int) -> Seq<ValueId>
    decreases n,
{
    if n <= 0 {
        Seq::empty()
    } else {
        arm_values(arms, n - 1) + seq![arms[n - 1].chan] + opt_seq(arms[n - 1].send)
    }
}

/// Every value that an operation reads or writes.
pub open spec fn values_of(op: Op) -> Seq<ValueId> {
    match op {
        Op::Assign { dst, src } => seq![dst, src],
        Op::Convert { dst, src } => seq![dst, src],
        Op::MakeInterface { dst, src } => seq![dst, src],
        Op::TypeAssert { dst, src, .. } => seq![dst, src],
        Op::Alloc { dst, .. } => seq![dst],
        Op::Load { dst, addr } => seq![dst, addr],
        Op::Store { addr, val } => seq![addr, val],
        Op::FieldAddr { dst, base, .. } => seq![dst, base],
        Op::Field { dst, base, .. } => seq![dst, base],
        Op::IndexAddr { dst, base, index } => seq![dst, base, index],
        Op::Index { dst, base, index } => seq![dst, base, index],
        Op::Lookup { dst, map, key, .. } => seq![dst, map, key],
        Op::Slice { dst, base, low, high, max } => seq![dst, base] + opt_seq(low) + opt_seq(high)
            + opt_seq(max),
        Op::BinOp { dst, lhs, rhs, .. } => seq![dst, lhs, rhs],
        Op::UnOp { dst, operand, .. } => seq![dst, operand],
        Op::Extract { dst, tuple, .. } => seq![dst, tuple],
        Op::Phi { dst, edges } => seq![dst] + edges@,
        Op::Call { dst, args, .. } => opt_seq(dst) + args@,
        Op::MakeClosure { dst, bindings, .. } => seq![dst] + bindings@,
        Op::Make { dst, args, .. } => seq![dst] + args@,
        Op::Send { chan, val } => seq![chan, val],
        Op::Recv { dst, chan, .. } => seq![dst, chan],
        Op::CloseChan { chan } => seq![chan],
        Op::Select { dst, arms, .. } => seq![dst] + arm_values(arms@, arms@.len() as int),
        Op::Go { args, .. } => args@,
        Op::Defer { args, .. } => args@,
        Op::Return { vals } => vals@,
        Op::Branch { cond } => seq![cond],
        Op::Panic { val } => seq![val],
        Op::Lock { mu, .. } => seq![mu],
        Op::Havoc { dst } => opt_seq(dst),
        Op::Jump => Seq::empty(),
    }
}

fn push_opt(vs: &mut Vec<ValueId>, v: Option<ValueId>)
    ensures
        final(vs)@ == old(vs)@ + opt_seq(v),
{
    let ghost o = vs@;
    match v {
        Some(x) => {
            vs.push(x);
            assert(vs@ =~= o + opt_seq(v));
        },
        None => {
            assert(vs@ =~= o + opt_seq(v));
        },
    }
}

fn push_all(vs: &mut Vec<ValueId>, more: &Vec<ValueId>)
    ensures
        final(vs)@ == old(vs)@ + more@,
{
    let ghost o = vs@;
    let mut i: usize = 0;
    assert(o + more@.take(0) =~= o);
    while i < more.len()
        invariant
            i <= more@.len(),
            vs@ == o + more@.take(i as int),
        decreases more@.len() - i,
    {
        vs.push(more[i]);
        assert((o + more@.take(i as int)).push(more@[i as int]) =~= o + more@.take(i as int + 1));
        i += 1;
    }
    assert(more@.take(more@.len() as int) =~= more@);
}

fn push_arms(vs: &mut Vec<ValueId>, arms: &Vec<SelectArm>)
    ensures
        final(vs)@ == old(vs)@ + arm_values(arms@, arms@.len() as int),
{
    let ghost o = vs@;
    let mut i: usize = 0;
    assert(o + arm_values(arms@, 0) =~= o);
    while i < arms.len()
        invariant
            i <= arms@.len(),
            vs@ == o + arm_values(arms@, i as int),
        decreases arms@.len() - i,
    {
        vs.push(arms[i].chan);
        push_opt(vs, arms[i].send);
        i += 1;
        assert(vs@ =~= o + arm_values(arms@, i as int));
    }
}

/// Every value that an operation reads or writes.
pub fn op_values(op: &Op) -> (r: Vec<ValueId>)
    ensures
        r@ == values_of(*op),
{
    let mut vs: Vec<ValueId> = Vec::new();
    match op {
        Op::Assign { dst, src }
        | Op::Convert { dst, src }
        | Op::MakeInterface { dst, src }
        | Op::TypeAssert { dst, src, .. } => {
            vs.push(*dst);
            vs.push(*src);
        },
        Op::Alloc { dst, .. } => {
            vs.push(*dst);
        },
        Op::Load { dst, addr } => {
            vs.push(*dst);
            vs.push(*addr);
        },
        Op::Store { addr, val } => {
            vs.push(*addr);
            vs.push(*val);
        },
        Op::FieldAddr { dst, base, .. } | Op::Field { dst, base, .. } => {
            vs.push(*dst);
            vs.push(*base);
        },
        Op::IndexAddr { dst, base, index } | Op::Index { dst, base, index } => {
            vs.push(*dst);
            vs.push(*base);
            vs.push(*index);
        },
        Op::Lookup { dst, map, key, .. } => {
            vs.push(*dst);
            vs.push(*map);
            vs.push(*key);
        },
        Op::Slice { dst, base, low, high, max } => {
            vs.push(*dst);
            vs.push(*base);
            push_opt(&mut vs, *low);
            push_opt(&mut vs, *high);
            push_opt(&mut vs, *max);
        },
        Op::BinOp { dst, lhs, rhs, .. } => {
            vs.push(*dst);
            vs.push(*lhs);
            vs.push(*rhs);
        },
        Op::UnOp { dst, operand, .. } => {
            vs.push(*dst);
            vs.push(*operand);
        },
        Op::Extract { dst, tuple, .. } => {
            vs.push(*dst);
            vs.push(*tuple);
        },
        Op::Phi { dst, edges } => {
            vs.push(*dst);
            push_all(&mut vs, edges);
        },
        Op::Call { dst, args, .. } => {
            push_opt(&mut vs, *dst);
            push_all(&mut vs, args);
        },
        Op::MakeClosure { dst, bindings, .. } => {
            vs.push(*dst);
            push_all(&mut vs, bindings);
        },
        Op::Make { dst, args, .. } => {
            vs.push(*dst);
            push_all(&mut vs, args);
        },
        Op::Send { chan, val } => {
            vs.push(*chan);
            vs.push(*val);
        },
        Op::Recv { dst, chan, .. } => {
            vs.push(*dst);
            vs.push(*chan);
        },
        Op::CloseChan { chan } => {
            vs.push(*chan);
        },
        Op::Select { dst, arms, .. } => {
            vs.push(*dst);
            push_arms(&mut vs, arms);
        },
        Op::Go { args, .. } | Op::Defer { args, .. } => {
            push_all(&mut vs, args);
        },
        Op::Return { vals } => {
            push_all(&mut vs, vals);
        },
        Op::Branch { cond } => {
            vs.push(*cond);
        },
        Op::Panic { val } => {
            vs.push(*val);
        },
        Op::Lock { mu, .. } => {
            vs.push(*mu);
        },
        Op::Havoc { dst } => {
            push_opt(&mut vs, *dst);
        },
        Op::Jump => {},
    }
    assert(vs@ =~= values_of(*op));
    vs
}

/// `e` with the first `n` of `vs` declared.
pub open spec fn declared_all(p: &Program, f: &Function, e: EncodedV, vs: Seq<ValueId>, n: int) -> EncodedV
    decreases n,
{
    if n <= 0 {
        e
    } else {
        declared(p, f, declared_all(p, f, e, vs, n - 1), vs[n - 1])
    }
}

/// `e` with the values of the first `k` instructions declared.
pub open spec fn declared_sites(p: &Program, f: &Function, e: EncodedV, k: int) -> EncodedV
    decreases k,
{
    if k <= 0 {
        e
    } else {
        let vs = values_of(f.op_at(f.sites()[k - 1]));
        declared_all(p, f, declared_sites(p, f, e, k - 1), vs, vs.len() as int)
    }
}

/// The last operation of block `b`.
pub open spec fn last_op(f: &Function, b: int) -> Option<Op> {
    if 0 <= b < f.blocks@.len() && f.blocks@[b].instrs@.len() > 0 {
        Some(f.blocks@[b].instrs@.last().op)
    } else {
        None
    }
}

/// The value that decides the branch at the end of block `b`.
pub open spec fn branch_value(f: &Function, b: int) -> Option<ValueId> {
    match last_op(f, b) {
        Some(Op::Branch { cond }) => Some(cond),
        _ => None,
    }
}

/// `e` with a constant declared for each unmodelled branch condition of the first `n` blocks.
pub open spec fn declared_conds(f: &Function, e: EncodedV, n: int) -> EncodedV
    decreases n,
{
    if n <= 0 {
        e
    } else {
        let before = declared_conds(f, e, n - 1);
        match branch_value(f, n - 1) {
            Some(cond) => if before.values.contains_key(cond) {
                before
            } else {
                before.declaring(havoc_name_of(n - 1), Sort::Bool)
            },
            None => before,
        }
    }
}

fn declare_list(p: &Program, f: &Function, vs: &Vec<ValueId>, enc: &mut EncodedFunc)
    requires
        old(enc).wf(),
    ensures
        final(enc).wf(),
        final(enc)@ == declared_all(p, f, old(enc)@, vs@, vs@.len() as int),
{
    let mut i: usize = 0;
    while i < vs.len()
        invariant
            i <= vs@.len(),
            enc.wf(),
            enc@ == declared_all(p, f, old(enc)@, vs@, i as int),
        decreases vs@.len() - i,
    {
        declare_value(p, f, vs[i], enc);
        i += 1;
    }
}

fn branch_of(f: &Function, b: usize) -> (r: Option<ValueId>)
    ensures
        r == branch_value(f, b as int),
{
    if b < f.blocks.len() {
        let n = f.blocks[b].instrs.len();
        if n > 0 {
            match &f.blocks[b].instrs[n - 1].op {
                Op::Branch { cond } => Some(*cond),
                _ => None,
            }
        } else {
            None
        }
    } else {
        None
    }
}

/// Declares every value that an instruction reads or writes, and a constant for each branch
/// condition that is not modelled.
fn declare_pass(p: &Program, f: &Function, enc: &mut EncodedFunc)
    requires
        old(enc).wf(),
    ensures
        final(enc).wf(),
        final(enc)@ == declared_conds(
            f,
            declared_sites(p, f, old(enc)@, f.sites().len() as int),
            f.blocks@.len() as int,
        ),
{
    let sites = f.all_sites();
    let mut k: usize = 0;
    while k < sites.len()
        invariant
            k <= sites@.len(),
            sites@ == f.sites(),
            forall|k: int| 0 <= k < sites@.len() ==> f.has_site(#[trigger] sites@[k]),
            enc.wf(),
            enc@ == declared_sites(p, f, old(enc)@, k as int),
        decreases sites@.len() - k,
    {
        let vs = op_values(f.op(sites[k]));
        declare_list(p, f, &vs, enc);
        k += 1;
    }
    let ghost mid = enc@;
    let mut b: usize = 0;
    while b < f.blocks.len()
        invariant
            b <= f.blocks@.len(),
            enc.wf(),
            enc@ == declared_conds(f, mid, b as int),
        decreases f.blocks@.len() - b,
    {
        if let Some(cond) = branch_of(f, b) {
            if enc.values.get(&cond).is_none() {
                enc.declare(havoc_name(b), Sort::Bool);
            }
        }
        b += 1;
    }
}

// ---- Guards ----

/// The first position of `b` in `s`, from `from` on.
pub open spec fn id_index(s: Seq<u32>, b: int, from: int) -> Option<int>
    decreases s.len() - from,
{
    if from < 0 || from >= s.len() {
        None
    } else if s[from] as int == b {
        Some(from)
    } else {
        id_index(s, b, from + 1)
    }
}

/// The condition of the branch that ends block `b`.
pub open spec fn branch_cond_of(f: &Function, e: EncodedV, b: int) -> Option<TermV> {
    match branch_value(f, b) {
        Some(cond) => match e.value(cond) {
            Some(t) => Some(t),
            None => Some(TermV::Var(havoc_name_of(b), Sort::Bool)),
        },
        None => None,
    }
}

/// The guard of the edge `from -> to`: the guard of `from`, and on the two edges of a branch
/// its condition or the negation.
pub open spec fn edge_guard_of(f: &Function, e: EncodedV, from: int, to: int) -> Option<TermV> {
    match e.guard(from) {
        None => None,
        Some(g) => if from >= f.blocks@.len() {
            None
        } else {
            match (branch_cond_of(f, e, from), id_index(f.blocks@[from].succs@, to, 0)) {
                (Some(c), Some(i)) => if i == 0 {
                    mk_and(seq![g, c])
                } else if i == 1 {
                    match mk_not(c) {
                        Some(nc) => mk_and(seq![g, nc]),
                        None => None,
                    }
                } else {
                    Some(g)
                },
                _ => Some(g),
            }
        },
    }
}

fn id_position(v: &Vec<u32>, b: usize) -> (r: Option<usize>)
    ensures
        match r {
            Some(i) => id_index(v@, b as int, 0) == Some(i as int),
            None => id_index(v@, b as int, 0) is None,
        },
{
    let mut i: usize = 0;
    while i < v.len()
        invariant
            i <= v@.len(),
            id_index(v@, b as int, 0) == id_index(v@, b as int, i as int),
        decreases v@.len() - i,
    {
        if v[i] as usize == b {
            return Some(i);
        }
        i += 1;
    }
    None
}

fn branch_cond(f: &Function, enc: &EncodedFunc, b: usize) -> (r: Option<Term>)
    requires
        enc.wf(),
    ensures
        opt_term(r) == branch_cond_of(f, enc@, b as int),
{
    match branch_of(f, b) {
        Some(cond) => match enc.value_term(cond) {
            Some(t) => Some(t),
            None => Some(Term::var(havoc_name(b).as_str(), Sort::Bool)),
        },
        None => None,
    }
}

/// Under what condition the edge from block `from` to block `to` is taken.
pub fn edge_guard(f: &Function, enc: &EncodedFunc, from: usize, to: usize) -> (r: Option<Term>)
    requires
        enc.wf(),
    ensures
        opt_term(r) == edge_guard_of(f, enc@, from as int, to as int),
{
    let g = match enc.guard_term(from) {
        Some(g) => g,
        None => {
            return None;
        },
    };
    if from >= f.blocks.len() {
        return None;
    }
    match (branch_cond(f, enc, from), id_position(&f.blocks[from].succs, to)) {
        (Some(c), Some(i)) => if i == 0 {
            Term::and2(g, c)
        } else if i == 1 {
            match Term::not(c) {
                Some(nc) => Term::and2(g, nc),
                None => None,
            }
        } else {
            Some(g)
        },
        _ => Some(g),
    }
}

/// The guards of the edges among the first `j` kept edges of `b` that lead to `s`.
pub open spec fn edges_from(f: &Function, e: EncodedV, b: int, s: int, j: int) -> Seq<TermV>
    decreases j,
{
    if j <= 0 {
        Seq::empty()
    } else {
        let before = edges_from(f, e, b, s, j - 1);
        if e.dag[b][j - 1] as int == s {
            before + opt_seq(edge_guard_of(f, e, b, s))
        } else {
            before
        }
    }
}

/// The guards of the kept edges from the first `n` blocks to `s`.
pub open spec fn edges_into(f: &Function, e: EncodedV, s: int, n: int) -> Seq<TermV>
    decreases n,
{
    if n <= 0 {
        Seq::empty()
    } else {
        edges_into(f, e, s, n - 1) + edges_from(f, e, n - 1, s, e.dag[n - 1].len() as int)
    }
}

/// What the guard of block `b` equals: true for the entry, false for a block that the entry
/// does not reach or that no kept edge leads to, else the disjunction of the edge guards.
pub open spec fn guard_value(f: &Function, e: EncodedV, reachable: Seq<bool>, b: int) -> TermV {
    let edges = edges_into(f, e, b, e.dag.len() as int);
    if b == 0 {
        TermV::BoolLit(true)
    } else if !reachable[b] || edges.len() == 0 {
        TermV::BoolLit(false)
    } else if edges.len() == 1 {
        edges[0]
    } else {
        TermV::Or(edges)
    }
}

/// `e` with the guards of the first `n` blocks defined.
pub open spec fn guarded(f: &Function, e: EncodedV, reachable: Seq<bool>, n: int) -> EncodedV
    decreases n,
{
    if n <= 0 {
        e
    } else {
        let before = guarded(f, e, reachable, n - 1);
        before.with(t_eq(before.guards[n - 1], guard_value(f, before, reachable, n - 1)))
    }
}

/// Whether the guards are boolean.
pub open spec fn guards_bool(e: EncodedV) -> bool {
    forall|b: int| 0 <= b < e.guards.len() ==> (#[trigger] e.guards[b]).sort() == Sort::Bool
}

proof fn lemma_edge_guard_bool(f: &Function, e: EncodedV, from: int, to: int)
    requires
        guards_bool(e),
    ensures
        edge_guard_of(f, e, from, to) matches Some(t) ==> t.sort() == Sort::Bool,
{
}

proof fn lemma_edges_from_bool(f: &Function, e: EncodedV, b: int, s: int, j: int)
    requires
        guards_bool(e),
    ensures
        forall|i: int|
            0 <= i < edges_from(f, e, b, s, j).len() ==> (#[trigger] edges_from(f, e, b, s, j)[i]).sort()
                == Sort::Bool,
    decreases j,
{
    if j > 0 {
        lemma_edges_from_bool(f, e, b, s, j - 1);
        lemma_edge_guard_bool(f, e, b, s);
    }
}

proof fn lemma_edges_into_bool(f: &Function, e: EncodedV, s: int, n: int)
    requires
        guards_bool(e),
    ensures
        forall|i: int|
            0 <= i < edges_into(f, e, s, n).len() ==> (#[trigger] edges_into(f, e, s, n)[i]).sort()
                == Sort::Bool,
    decreases n,
{
    if n > 0 {
        lemma_edges_into_bool(f, e, s, n - 1);
        lemma_edges_from_bool(f, e, n - 1, s, e.dag[n - 1].len() as int);
    }
}

fn incoming(f: &Function, enc: &EncodedFunc, s: usize) -> (r: Vec<Term>)
    requires
        enc.wf(),
    ensures
        terms(r@) == edges_into(f, enc@, s as int, enc@.dag.len() as int),
{
    let mut out: Vec<Term> = Vec::new();
    let n = enc.dag_succs.len();
    let ghost e = enc@;
    let mut b: usize = 0;
    assert(terms(out@) =~= Seq::<TermV>::empty());
    while b < n
        invariant
            n == enc.dag_succs@.len(),
            b <= n,
            enc.wf(),
            e == enc@,
            terms(out@) == edges_into(f, e, s as int, b as int),
        decreases n - b,
    {
        let m = enc.dag_succs[b].len();
        let mut j: usize = 0;
        assert(e.dag[b as int] == enc.dag_succs@[b as int]@);
        assert(terms(out@) =~= edges_into(f, e, s as int, b as int) + edges_from(
            f,
            e,
            b as int,
            s as int,
            0,
        ));
        while j < m
            invariant
                b < enc.dag_succs@.len(),
                m == enc.dag_succs@[b as int]@.len(),
                j <= m,
                enc.wf(),
                e == enc@,
                e.dag[b as int] == enc.dag_succs@[b as int]@,
                terms(out@) == edges_into(f, e, s as int, b as int) + edges_from(
                    f,
                    e,
                    b as int,
                    s as int,
                    j as int,
                ),
            decreases m - j,
        {
            let ghost before = out@;
            if enc.dag_succs[b][j] as usize == s {
                match edge_guard(f, enc, b, s) {
                    Some(g) => {
                        out.push(g);
                        assert(terms(out@) =~= terms(before).push(g@));
                    },
                    None => {},
                }
            }
            j += 1;
            assert(terms(out@) =~= edges_into(f, e, s as int, b as int) + edges_from(
                f,
                e,
                b as int,
                s as int,
                j as int,
            ));
        }
        b += 1;
    }
    out
}

fn encode_guards(f: &Function, reachable: &Vec<bool>, enc: &mut EncodedFunc)
    requires
        old(enc).wf(),
        guards_bool(old(enc)@),
        old(enc).guards@.len() == f.blocks@.len(),
        reachable@.len() == f.blocks@.len(),
    ensures
        final(enc).wf(),
        final(enc)@ == guarded(f, old(enc)@, reachable@, f.blocks@.len() as int),
{
    let n = f.blocks.len();
    let mut b: usize = 0;
    while b < n
        invariant
            n == f.blocks@.len(),
            b <= n,
            enc.wf(),
            reachable@.len() == n,
            enc.guards@.len() == n,
            guards_bool(enc@),
            enc@ == guarded(f, old(enc)@, reachable@, b as int),
        decreases n - b,
    {
        let ghost e = enc@;
        let mut edges = incoming(f, enc, b);
        let ghost ev = terms(edges@);
        proof {
            lemma_edges_into_bool(f, e, b as int, e.dag.len() as int);
            assert(e.guards[b as int] == enc.guards@[b as int]@);
        }
        let rhs = if b == 0 {
            Term::bool_lit(true)
        } else if !reachable[b] || edges.len() == 0 {
            Term::bool_lit(false)
        } else if edges.len() == 1 {
            assert(ev[0] == edges@[0]@);
            edges.pop().unwrap()
        } else {
            match Term::or(edges) {
                Some(t) => t,
                None => {
                    assert(false);
                    Term::bool_lit(false)
                },
            }
        };
        assert(rhs@ == guard_value(f, e, reachable@, b as int));
        let g = enc.guards[b].dup();
        proof {
            assert(rhs@.sort() == Sort::Bool);
        }
        match Term::eq(g, rhs) {
            Some(t) => {
                enc.add(t);
            },
            None => {
                assert(false);
            },
        }
        b += 1;
    }
}

// ---- Operations ----

/// `e` with what is asserted of the first `k` instructions.
pub open spec fn defined(p: &Program, f: &Function, e: EncodedV, k: int) -> EncodedV
    decreases k,
{
    if k <= 0 {
        e
    } else {
        let before = defined(p, f, e, k - 1);
        let s = f.sites()[k - 1];
        before.with_opt(op_def_of(p, f, before, s.0 as int, f.op_at(s)))
    }
}

fn encode_ops(p: &Program, f: &Function, enc: &mut EncodedFunc)
    requires
        old(enc).wf(),
    ensures
        final(enc).wf(),
        final(enc)@ == defined(p, f, old(enc)@, f.sites().len() as int),
{
    let sites = f.all_sites();
    let mut k: usize = 0;
    while k < sites.len()
        invariant
            k <= sites@.len(),
            sites@ == f.sites(),
            forall|k: int| 0 <= k < sites@.len() ==> f.has_site(#[trigger] sites@[k]),
            enc.wf(),
            enc@ == defined(p, f, old(enc)@, k as int),
        decreases sites@.len() - k,
    {
        let s = sites[k];
        let def = op_def(p, f, &sites, s.0, f.op(s), enc);
        enc.add_opt(def);
        k += 1;
    }
}

// ---- Load forwarding ----

/// What address a value is: two addresses with the same key are the same location.
#[derive(Debug, PartialEq, Eq)]
pub enum AddrKey {
    Root(ValueId),
    Field(Box<AddrKey>, u32),
    Index(Box<AddrKey>, ValueId),
}

impl View for AddrKey {
    type V = AddrKey;

    open spec fn view(&self) -> AddrKey {
        *self
    }
}

impl AddrKey {
    fn dup(&self) -> (r: AddrKey)
        ensures
            r == *self,
        decreases self,
    {
        match self {
            AddrKey::Root(v) => AddrKey::Root(*v),
            AddrKey::Field(b, i) => AddrKey::Field(Box::new(b.dup()), *i),
            AddrKey::Index(b, v) => AddrKey::Index(Box::new(b.dup()), *v),
        }
    }

    fn same(&self, other: &AddrKey) -> (r: bool)
        ensures
            r == (*self == *other),
        decreases self,
    {
        match (self, other) {
            (AddrKey::Root(a), AddrKey::Root(b)) => *a == *b,
            (AddrKey::Field(a, i), AddrKey::Field(b, j)) => *i == *j && a.same(b),
            (AddrKey::Index(a, i), AddrKey::Index(b, j)) => *i == *j && a.same(b),
            _ => false,
        }
    }
}

/// The state of load forwarding: the keys of the addresses met so far, the loads whose value
/// is still good, and the equalities found.
pub struct ForwardV {
    pub keys: Map<ValueId, AddrKey>,
    pub seen: Seq<(AddrKey, ValueId)>,
    pub found: Seq<TermV>,
}

/// The key of `v`; a value of which nothing is known is its own root.
pub open spec fn key_of_value(keys: Map<ValueId, AddrKey>, v: ValueId) -> AddrKey {
    if keys.contains_key(v) { keys[v] } else { AddrKey::Root(v) }
}

/// The load that `k` was first seen in.
pub open spec fn seen_load(seen: Seq<(AddrKey, ValueId)>, k: AddrKey, from: int) -> Option<ValueId>
    decreases seen.len() - from,
{
    if from < 0 || from >= seen.len() {
        None
    } else if seen[from].0 == k {
        Some(seen[from].1)
    } else {
        seen_load(seen, k, from + 1)
    }
}

/// The equality of two loads of one address, where both are modelled.
pub open spec fn same_load(e: EncodedV, a: ValueId, b: ValueId) -> Option<TermV> {
    match (e.value(a), e.value(b)) {
        (Some(x), Some(y)) => mk_eq(x, y),
        _ => None,
    }
}

/// One instruction. Assignments hand keys on, field and element addresses make them; a load
/// of an address already loaded has the earlier load's value; a store, and an operation with
/// unknown effect, end all of that.
pub open spec fn forward_op(e: EncodedV, st: ForwardV, op: Op) -> ForwardV {
    match op {
        Op::Assign { dst, src } => if st.keys.contains_key(src) {
            ForwardV { keys: st.keys.insert(dst, st.keys[src]), ..st }
        } else {
            st
        },
        Op::FieldAddr { dst, base, field } => ForwardV {
            keys: st.keys.insert(
                dst,
                AddrKey::Field(Box::new(key_of_value(st.keys, base)), field),
            ),
            ..st
        },
        Op::IndexAddr { dst, base, index } => ForwardV {
            keys: st.keys.insert(
                dst,
                AddrKey::Index(Box::new(key_of_value(st.keys, base)), index),
            ),
            ..st
        },
        Op::Load { dst, addr } => {
            let k = key_of_value(st.keys, addr);
            match seen_load(st.seen, k, 0) {
                Some(prev) => ForwardV { found: st.found + opt_seq(same_load(e, dst, prev)), ..st },
                None => ForwardV { seen: st.seen.push((k, dst)), ..st },
            }
        },
        Op::Store { .. } => ForwardV { seen: Seq::empty(), ..st },
        Op::Havoc { dst: None } => ForwardV { seen: Seq::empty(), ..st },
        _ => st,
    }
}

/// The first `n` instructions of block `b`.
pub open spec fn forward_block(f: &Function, e: EncodedV, st: ForwardV, b: int, n: int) -> ForwardV
    decreases n,
{
    if n <= 0 {
        st
    } else {
        forward_op(e, forward_block(f, e, st, b, n - 1), f.blocks@[b].instrs@[n - 1].op)
    }
}

/// The first `n` blocks of `order`.
pub open spec fn forward_order(f: &Function, e: EncodedV, order: Seq<int>, n: int) -> ForwardV
    decreases n,
{
    if n <= 0 {
        ForwardV { keys: Map::empty(), seen: Seq::empty(), found: Seq::empty() }
    } else {
        let before = forward_order(f, e, order, n - 1);
        let b = order[n - 1];
        if 0 <= b < f.blocks@.len() {
            forward_block(f, e, before, b, f.blocks@[b].instrs@.len() as int)
        } else {
            before
        }
    }
}

/// The topological order of `g`.
pub open spec fn the_topo(g: Seq<Seq<u32>>) -> Seq<int> {
    choose|o: Seq<int>| is_topo(g, o)
}

/// The kept edges and the reached blocks of `g`.
pub open spec fn the_cut(g: Seq<Seq<u32>>) -> (Seq<Seq<u32>>, Seq<bool>) {
    choose|r: (Seq<Seq<u32>>, Seq<bool>)| is_cut(g, r.0, r.1)
}

/// `e` with repeated loads made equal, along the topological order of the kept edges.
pub open spec fn forwarded(f: &Function, e: EncodedV) -> EncodedV {
    let order = the_topo(e.dag);
    EncodedV {
        asserts: e.asserts + forward_order(f, e, order, order.len() as int).found,
        ..e
    }
}

struct Forward {
    keys: SortedMap<ValueId, AddrKey>,
    seen: Vec<(AddrKey, ValueId)>,
    found: Vec<Term>,
}

impl View for Forward {
    type V = ForwardV;

    closed spec fn view(&self) -> ForwardV {
        ForwardV { keys: self.keys@, seen: self.seen@, found: terms(self.found@) }
    }
}

fn key_of(keys: &SortedMap<ValueId, AddrKey>, v: ValueId) -> (r: AddrKey)
    requires
        keys.wf(),
    ensures
        r == key_of_value(keys@, v),
{
    match keys.get(&v) {
        Some(k) => k.dup(),
        None => AddrKey::Root(v),
    }
}

fn find_load(seen: &Vec<(AddrKey, ValueId)>, k: &AddrKey) -> (r: Option<ValueId>)
    ensures
        r == seen_load(seen@, *k, 0),
{
    let mut i: usize = 0;
    while i < seen.len()
        invariant
            i <= seen@.len(),
            seen_load(seen@, *k, 0) == seen_load(seen@, *k, i as int),
        decreases seen@.len() - i,
    {
        if seen[i].0.same(k) {
            return Some(seen[i].1);
        }
        i += 1;
    }
    None
}

fn forward_step(enc: &EncodedFunc, st: &mut Forward, op: &Op)
    requires
        enc.wf(),
        old(st).keys.wf(),
    ensures
        final(st).keys.wf(),
        final(st)@ == forward_op(enc@, old(st)@, *op),
{
    match op {
        Op::Assign { dst, src } => {
            let k = match st.keys.get(src) {
                Some(k) => Some(k.dup()),
                None => None,
            };
            if let Some(k) = k {
                st.keys.insert(*dst, k);
            }
        },
        Op::FieldAddr { dst, base, field } => {
            let k = key_of(&st.keys, *base);
            st.keys.insert(*dst, AddrKey::Field(Box::new(k), *field));
        },
        Op::IndexAddr { dst, base, index } => {
            let k = key_of(&st.keys, *base);
            st.keys.insert(*dst, AddrKey::Index(Box::new(k), *index));
        },
        Op::Load { dst, addr } => {
            let k = key_of(&st.keys, *addr);
            match find_load(&st.seen, &k) {
                Some(prev) => {
                    let t = match (enc.value_term(*dst), enc.value_term(prev)) {
                        (Some(x), Some(y)) => Term::eq(x, y),
                        _ => None,
                    };
                    let ghost before = st.found@;
                    let ghost tv = opt_term(t);
                    if let Some(t) = t {
                        st.found.push(t);
                    }
                    assert(terms(st.found@) =~= terms(before) + opt_seq(tv));
                },
                None => {
                    st.seen.push((k, *dst));
                },
            }
        },
        Op::Store { .. } | Op::Havoc { dst: None } => {
            st.seen = Vec::new();
            assert(st.seen@ =~= Seq::<(AddrKey, ValueId)>::empty());
        },
        _ => {},
    }
}

/// Makes repeated loads of one address equal where nothing in between may have written it.
/// Calls do not count as writes.
fn encode_load_forwarding(f: &Function, enc: &mut EncodedFunc)
    requires
        old(enc).wf(),
    ensures
        final(enc).wf(),
        final(enc)@ == forwarded(f, old(enc)@),
{
    let order = topo_order(&enc.dag_succs);
    let ghost e = enc@;
    let ghost ov = ints(order@);
    proof {
        is_topo_unique(e.dag, ov, the_topo(e.dag));
    }
    let mut st = Forward { keys: SortedMap::new(), seen: Vec::new(), found: Vec::new() };
    assert(terms(st.found@) =~= Seq::<TermV>::empty());
    let mut k: usize = 0;
    while k < order.len()
        invariant
            k <= order@.len(),
            ov == ints(order@),
            enc.wf(),
            e == enc@,
            st.keys.wf(),
            st@ == forward_order(f, e, ov, k as int),
        decreases order@.len() - k,
    {
        let b = order[k];
        if b < f.blocks.len() {
            let ghost before = st@;
            let m = f.blocks[b].instrs.len();
            let mut i: usize = 0;
            while i < m
                invariant
                    b < f.blocks@.len(),
                    m == f.blocks@[b as int].instrs@.len(),
                    i <= m,
                    enc.wf(),
                    e == enc@,
                    st.keys.wf(),
                    st@ == forward_block(f, e, before, b as int, i as int),
                decreases m - i,
            {
                forward_step(enc, &mut st, &f.blocks[b].instrs[i].op);
                i += 1;
            }
        }
        k += 1;
    }
    let ghost fv = terms(st.found@);
    let ghost before = enc.asserts@;
    let mut found = st.found;
    enc.asserts.append(&mut found);
    assert(terms(enc.asserts@) =~= terms(before) + fv);
}

// ---- Whole functions ----

/// The encoding before anything is declared but the guards.
pub open spec fn encoded_start(f: &Function) -> EncodedV {
    let n = f.blocks@.len();
    EncodedV {
        consts: Seq::new(n, |b: int| (guard_name_of(b), Sort::Bool)),
        asserts: Seq::empty(),
        guards: Seq::new(n, |b: int| TermV::Var(guard_name_of(b), Sort::Bool)),
        values: Map::empty(),
        dag: the_cut(succ_graph(f)).0,
    }
}

/// The encoding once everything is declared: parameters first, then what instructions read or
/// write, then unmodelled branch conditions.
pub open spec fn encoded_decls(p: &Program, f: &Function) -> EncodedV {
    let e1 = declared_all(p, f, encoded_start(f), f.params@, f.params@.len() as int);
    declared_conds(f, declared_sites(p, f, e1, f.sites().len() as int), f.blocks@.len() as int)
}

/// The encoding of a function body.
pub open spec fn encoded(p: &Program, f: &Function) -> EncodedV {
    let e = guarded(f, encoded_decls(p, f), the_cut(succ_graph(f)).1, f.blocks@.len() as int);
    forwarded(f, defined(p, f, e, f.sites().len() as int))
}

/// The message for a function without a body.
pub open spec fn no_body_message(p: &Program, f: FuncId) -> Seq<char> {
    p.name_of(f) + ": no body to encode"@
}

/// The message for a function that is too large.
pub open spec fn too_large_message(p: &Program, f: FuncId) -> Seq<char> {
    p.name_of(f) + ": encoding exceeds 50000 assertions; skipped"@
}

/// The encoding of `f`, or the message why there is none.
pub open spec fn encoding(p: &Program, f: FuncId) -> Result<EncodedV, Seq<char>> {
    match p.body(f) {
        None => Err(no_body_message(p, f)),
        Some(func) => if encoded(p, &func).asserts.len() > ASSERT_CAP {
            Err(too_large_message(p, f))
        } else {
            Ok(encoded(p, &func))
        },
    }
}

fn named(p: &Program, f: FuncId, what: &str) -> (r: String)
    ensures
        r@ == p.name_of(f) + what@,
{
    let mut s = p.func_name(f).to_string();
    s.append(what);
    s
}

proof fn lemma_guarded_frame(f: &Function, e: EncodedV, reachable: Seq<bool>, n: int)
    ensures
        guarded(f, e, reachable, n).guards == e.guards,
        guarded(f, e, reachable, n).dag == e.dag,
        guarded(f, e, reachable, n).consts == e.consts,
        guarded(f, e, reachable, n).values == e.values,
    decreases n,
{
    if n > 0 {
        lemma_guarded_frame(f, e, reachable, n - 1);
    }
}

proof fn lemma_defined_frame(p: &Program, f: &Function, e: EncodedV, k: int)
    ensures
        defined(p, f, e, k).guards == e.guards,
        defined(p, f, e, k).dag == e.dag,
        defined(p, f, e, k).consts == e.consts,
        defined(p, f, e, k).values == e.values,
    decreases k,
{
    if k > 0 {
        lemma_defined_frame(p, f, e, k - 1);
    }
}

proof fn lemma_with_ensures_frame(f: &Function, e: EncodedV, t: TableV, k: int)
    ensures
        with_ensures(f, e, t, k).guards == e.guards,
        with_ensures(f, e, t, k).dag == e.dag,
        with_ensures(f, e, t, k).consts == e.consts,
        with_ensures(f, e, t, k).values == e.values,
    decreases k,
{
    if k > 0 {
        lemma_with_ensures_frame(f, e, t, k - 1);
    }
}

/// The kept edges of an encoding are those of the function with back edges cut.
pub proof fn lemma_encoded_dag(p: &Program, f: &Function)
    ensures
        encoded(p, f).dag == the_cut(succ_graph(f)).0,
        encoded(p, f).guards == encoded_start(f).guards,
{
    let d = encoded_decls(p, f);
    lemma_decls_frame(p, f);
    let g = guarded(f, d, the_cut(succ_graph(f)).1, f.blocks@.len() as int);
    lemma_guarded_frame(f, d, the_cut(succ_graph(f)).1, f.blocks@.len() as int);
    lemma_defined_frame(p, f, g, f.sites().len() as int);
}

/// Encodes a body, without a limit on its size.
fn encode_body(p: &Program, func: &Function) -> (enc: EncodedFunc)
    ensures
        enc.wf(),
        enc@ == encoded(p, func),
        acyclic(enc@.dag),
{
    let n = func.blocks.len();
    let (dag_succs, reachable) = cut_back_edges_visited(func);
    let ghost g = succ_graph(func);
    proof {
        let c = the_cut(g);
        assert(is_cut(g, (adj(dag_succs@), reachable@).0, (adj(dag_succs@), reachable@).1));
        is_cut_unique(g, adj(dag_succs@), reachable@, c.0, c.1);
    }
    let mut guards: Vec<Term> = Vec::new();
    let mut consts: Vec<Const> = Vec::new();
    let mut b: usize = 0;
    while b < n
        invariant
            b <= n,
            guards@.len() == b,
            consts@.len() == b,
            forall|i: int|
                0 <= i < b ==> (#[trigger] guards@[i])@ == TermV::Var(guard_name_of(i), Sort::Bool),
            forall|i: int|
                0 <= i < b ==> (#[trigger] consts@[i]).0@ == guard_name_of(i) && consts@[i].1
                    == Sort::Bool,
        decreases n - b,
    {
        let name = guard_name(b);
        guards.push(Term::var(name.as_str(), Sort::Bool));
        consts.push((name, Sort::Bool));
        b += 1;
    }
    let mut enc = EncodedFunc {
        consts,
        asserts: Vec::new(),
        guards,
        values: SortedMap::new(),
        dag_succs,
    };
    proof {
        let e = encoded_start(func);
        assert(enc@.consts =~= e.consts);
        assert(enc@.asserts =~= e.asserts);
        assert(enc@.guards =~= e.guards);
        assert(enc@ == e);
    }
    declare_list(p, func, &func.params, &mut enc);
    declare_pass(p, func, &mut enc);
    proof {
        lemma_decls_frame(p, func);
    }
    encode_guards(func, &reachable, &mut enc);
    encode_ops(p, func, &mut enc);
    encode_load_forwarding(func, &mut enc);
    proof {
        lemma_encoded_dag(p, func);
    }
    enc
}

proof fn lemma_declared_all_frame(p: &Program, f: &Function, e: EncodedV, vs: Seq<ValueId>, n: int)
    ensures
        declared_all(p, f, e, vs, n).guards == e.guards,
        declared_all(p, f, e, vs, n).dag == e.dag,
    decreases n,
{
    if n > 0 {
        lemma_declared_all_frame(p, f, e, vs, n - 1);
    }
}

proof fn lemma_declared_sites_frame(p: &Program, f: &Function, e: EncodedV, k: int)
    ensures
        declared_sites(p, f, e, k).guards == e.guards,
        declared_sites(p, f, e, k).dag == e.dag,
    decreases k,
{
    if k > 0 {
        lemma_declared_sites_frame(p, f, e, k - 1);
        let vs = values_of(f.op_at(f.sites()[k - 1]));
        lemma_declared_all_frame(p, f, declared_sites(p, f, e, k - 1), vs, vs.len() as int);
    }
}

proof fn lemma_declared_conds_frame(f: &Function, e: EncodedV, n: int)
    ensures
        declared_conds(f, e, n).guards == e.guards,
        declared_conds(f, e, n).dag == e.dag,
    decreases n,
{
    if n > 0 {
        lemma_declared_conds_frame(f, e, n - 1);
    }
}

/// Declaring leaves guards and kept edges as they are.
pub proof fn lemma_decls_frame(p: &Program, f: &Function)
    ensures
        encoded_decls(p, f).guards == encoded_start(f).guards,
        encoded_decls(p, f).dag == encoded_start(f).dag,
        guards_bool(encoded_decls(p, f)),
{
    let e0 = encoded_start(f);
    let e1 = declared_all(p, f, e0, f.params@, f.params@.len() as int);
    lemma_declared_all_frame(p, f, e0, f.params@, f.params@.len() as int);
    lemma_declared_sites_frame(p, f, e1, f.sites().len() as int);
    lemma_declared_conds_frame(
        f,
        declared_sites(p, f, e1, f.sites().len() as int),
        f.blocks@.len() as int,
    );
}

/// The encoding of `f`. It fails for a function without a body and for one with more than
/// [`ASSERT_CAP`] assertions.
pub fn encode_func(p: &Program, f: FuncId) -> (r: Result<EncodedFunc, String>)
    ensures
        match r {
            Ok(e) => e.wf() && encoding(p, f) == Ok::<EncodedV, Seq<char>>(e@) && acyclic(e@.dag),
            Err(m) => encoding(p, f) == Err::<EncodedV, Seq<char>>(m@),
        },
{
    let func = match p.func(f) {
        Some(func) => func,
        None => {
            return Err(named(p, f, ": no body to encode"));
        },
    };
    let enc = encode_body(p, func);
    assert(enc@.asserts.len() == enc.asserts@.len());
    if enc.asserts.len() > ASSERT_CAP {
        return Err(named(p, f, ": encoding exceeds 50000 assertions; skipped"));
    }
    Ok(enc)
}

// ---- What callees guarantee ----

/// `s` with `t` in slot `i`, unless something is there.
pub open spec fn put_slot(s: Seq<Option<TermV>>, i: int, t: Option<TermV>) -> Seq<Option<TermV>> {
    let wide = if i < s.len() {
        s
    } else {
        s + Seq::new((i + 1 - s.len()) as nat, |j: int| None)
    };
    if wide[i] is None { wide.update(i, t) } else { wide }
}

/// The results of the call that defines `d`, as far as the first `k` instructions show: `d`
/// itself if it is modelled, and what is extracted from the tuple `d`.
pub open spec fn results_upto(f: &Function, e: EncodedV, d: ValueId, k: int) -> Seq<Option<TermV>>
    decreases k,
{
    if k <= 0 {
        match e.value(d) {
            Some(t) => seq![Some(t)],
            None => Seq::empty(),
        }
    } else {
        let before = results_upto(f, e, d, k - 1);
        match f.op_at(f.sites()[k - 1]) {
            Op::Extract { dst, tuple, index } => if tuple == d {
                put_slot(before, index as int, e.value(dst))
            } else {
                before
            },
            _ => before,
        }
    }
}

/// The terms of a list of values.
pub open spec fn values_at(e: EncodedV, vs: Seq<ValueId>) -> Seq<Option<TermV>> {
    Seq::new(vs.len(), |i: int| e.value(vs[i]))
}

/// Whether a caller may rely on clause `c` of summary `s`: it was inferred, or is annotated.
pub open spec fn relied_on(s: SummaryV, c: ClauseV) -> bool {
    s.provenance == Provenance::Inferred || c.provenance == Provenance::Annotated
}

/// `t`, unless the block with guard `g` is not reached.
pub open spec fn under_guard(g: Option<TermV>, t: Option<TermV>) -> Option<TermV> {
    match (g, t) {
        (Some(g), Some(t)) => match mk_not(g) {
            Some(ng) => mk_or(seq![ng, t]),
            None => None,
        },
        _ => None,
    }
}

/// What the first `n` guarantees of the callee say of one call.
pub open spec fn call_facts(
    s: SummaryV,
    g: Option<TermV>,
    args: Seq<Option<TermV>>,
    results: Seq<Option<TermV>>,
    n: int,
) -> Seq<TermV>
    decreases n,
{
    if n <= 0 {
        Seq::empty()
    } else {
        let before = call_facts(s, g, args, results, n - 1);
        if relied_on(s, s.ensures_[n - 1]) {
            before + opt_seq(under_guard(g, bound_all(s.ensures_, args, results)[n - 1].bound))
        } else {
            before
        }
    }
}

/// The results of a call.
pub open spec fn results_of(f: &Function, e: EncodedV, dst: Option<ValueId>) -> Seq<Option<TermV>> {
    match dst {
        Some(d) => results_upto(f, e, d, f.sites().len() as int),
        None => Seq::empty(),
    }
}

/// `e` with the guarantees of the static callees of the first `k` instructions.
pub open spec fn with_ensures(f: &Function, e: EncodedV, t: TableV, k: int) -> EncodedV
    decreases k,
{
    if k <= 0 {
        e
    } else {
        let before = with_ensures(f, e, t, k - 1);
        let s = f.sites()[k - 1];
        match f.op_at(s) {
            Op::Call { dst, callee: Callee::Static(c), args } => {
                let callee = t.summary(c);
                EncodedV {
                    asserts: before.asserts + call_facts(
                        callee,
                        before.guard(s.0 as int),
                        values_at(before, args@),
                        results_of(f, before, dst),
                        callee.ensures_.len() as int,
                    ),
                    ..before
                }
            },
            _ => before,
        }
    }
}

/// The encoding of `f` with what its callees guarantee, or the message why there is none.
pub open spec fn encoding_with(p: &Program, f: FuncId, t: TableV) -> Result<EncodedV, Seq<char>> {
    match p.body(f) {
        None => Err(no_body_message(p, f)),
        Some(func) => {
            let e = with_ensures(&func, encoded(p, &func), t, func.sites().len() as int);
            if e.asserts.len() > ASSERT_CAP {
                Err(too_large_message(p, f))
            } else {
                Ok(e)
            }
        },
    }
}

/// The terms of a list of values.
pub fn value_terms(enc: &EncodedFunc, vs: &Vec<ValueId>) -> (r: Vec<Option<Term>>)
    requires
        enc.wf(),
    ensures
        opt_terms(r@) == values_at(enc@, vs@),
{
    let mut out: Vec<Option<Term>> = Vec::new();
    let mut i: usize = 0;
    while i < vs.len()
        invariant
            i <= vs@.len(),
            enc.wf(),
            out@.len() == i,
            forall|j: int| 0 <= j < i ==> opt_term(#[trigger] out@[j]) == enc@.value(vs@[j]),
        decreases vs@.len() - i,
    {
        out.push(enc.value_term(vs[i]));
        i += 1;
    }
    assert(opt_terms(out@) =~= values_at(enc@, vs@));
    out
}

proof fn lemma_put_slot(s: Seq<Option<TermV>>, i: u32, t: Option<TermV>, k: u32)
    ensures
        term_slot(put_slot(s, i as int, t), Some(k)) == (if k == i && term_slot(s, Some(k)) is None {
            t
        } else {
            term_slot(s, Some(k))
        }),
{
}

proof fn lemma_result_stays(f: &Function, e: EncodedV, d: ValueId, i: u32, k: int, n: int)
    requires
        0 <= k <= n,
        term_slot(results_upto(f, e, d, k), Some(i)) is Some,
    ensures
        term_slot(results_upto(f, e, d, n), Some(i)) == term_slot(results_upto(f, e, d, k), Some(i)),
    decreases n,
{
    if k < n {
        lemma_result_stays(f, e, d, i, k, n - 1);
        let before = results_upto(f, e, d, n - 1);
        if let Op::Extract { dst, tuple, index } = f.op_at(f.sites()[n - 1]) {
            lemma_put_slot(before, index, e.value(dst), i);
        }
    }
}

/// What is extracted from the tuple of a call stands for that result in the callee's
/// guarantees, however many results come before it. Of several extractions the first counts.
pub proof fn extracted_results_are_bound(
    f: &Function,
    e: EncodedV,
    d: ValueId,
    k: int,
    dst: ValueId,
    i: u32,
    args: Seq<Option<TermV>>,
)
    requires
        0 <= k < f.sites().len(),
        f.op_at(f.sites()[k]) == (Op::Extract { dst, tuple: d, index: i }),
        e.value(dst) is Some,
        term_slot(results_upto(f, e, d, k), Some(i)) is None,
    ensures
        binding(iface_name(IfaceVar::Result(i)), args, results_of(f, e, Some(d))) == e.value(dst),
{
    lemma_put_slot(results_upto(f, e, d, k), i, e.value(dst), i);
    lemma_result_stays(f, e, d, i, k + 1, f.sites().len() as int);
    param_binds_argument(i, args, results_of(f, e, Some(d)));
}

/// The results of a call that are modelled, by their index. Where one is extracted more than
/// once, the first counts.
fn call_results(f: &Function, sites: &Vec<Site>, enc: &EncodedFunc, dst: Option<ValueId>) -> (r: Vec<
    (u32, Term),
>)
    requires
        enc.wf(),
        sites@ == f.sites(),
        forall|k: int| 0 <= k < sites@.len() ==> f.has_site(#[trigger] sites@[k]),
    ensures
        stands_for(r@, results_of(f, enc@, dst)),
{
    let mut out: Vec<(u32, Term)> = Vec::new();
    let d = match dst {
        Some(d) => d,
        None => {
            return out;
        },
    };
    match enc.value_term(d) {
        Some(t) => {
            out.push((0, t));
            reveal_with_fuel(entry_upto, 2);
        },
        None => {},
    }
    let mut k: usize = 0;
    while k < sites.len()
        invariant
            k <= sites@.len(),
            enc.wf(),
            sites@ == f.sites(),
            forall|k: int| 0 <= k < sites@.len() ==> f.has_site(#[trigger] sites@[k]),
            stands_for(out@, results_upto(f, enc@, d, k as int)),
        decreases sites@.len() - k,
    {
        if let Op::Extract { dst, tuple, index } = f.op(sites[k]) {
            if *tuple == d {
                let ghost before = results_upto(f, enc@, d, k as int);
                let ghost items = out@;
                let v = enc.value_term(*dst);
                let ghost vv = opt_term(v);
                if let Some(t) = v {
                    out.push((*index, t));
                    proof {
                        lemma_entry_prefix(items, out@, items.len());
                    }
                }
                assert forall|x: u32| #[trigger] entry_upto(out@, x, out@.len()) == term_slot(
                    put_slot(before, *index as int, vv),
                    Some(x),
                ) by {
                    lemma_put_slot(before, *index, vv, x);
                    assert(entry_upto(items, x, items.len()) == term_slot(before, Some(x)));
                    assert(entry_upto(out@, x, items.len()) == entry_upto(items, x, items.len()));
                }
            }
        }
        k += 1;
    }
    out
}

fn add_call_facts(
    enc: &mut EncodedFunc,
    t: &SummaryTable,
    c: FuncId,
    block: usize,
    args: &Vec<Option<Term>>,
    results: &Vec<(u32, Term)>,
    Ghost(rv): Ghost<Seq<Option<TermV>>>,
)
    requires
        old(enc).wf(),
        t.wf(),
        stands_for(results@, rv),
    ensures
        final(enc).wf(),
        final(enc)@ == (EncodedV {
            asserts: old(enc)@.asserts + call_facts(
                t.summary(c),
                old(enc)@.guard(block as int),
                opt_terms(args@),
                rv,
                t.summary(c).ensures_.len() as int,
            ),
            ..old(enc)@
        }),
{
    let ghost e = enc@;
    let ghost av = opt_terms(args@);
    let s = match t.get(c) {
        Some(s) => s,
        None => {
            assert(enc@.asserts =~= e.asserts + Seq::<TermV>::empty());
            return;
        },
    };
    let bound = bind_listed(&s.ensures_, args, results, Ghost(rv));
    let ghost bv = bounds_v(bound@);
    let n = s.ensures_.len();
    let mut i: usize = 0;
    assert(bv.len() == bound@.len());
    assert(e.asserts + Seq::<TermV>::empty() =~= e.asserts);
    while i < n
        invariant
            n == s.ensures_@.len(),
            i <= n,
            enc.wf(),
            s@ == t.summary(c),
            bound@.len() == n,
            bv == bounds_v(bound@),
            bv == bound_all(s@.ensures_, av, rv),
            enc@ == (EncodedV {
                asserts: e.asserts + call_facts(s@, e.guard(block as int), av, rv, i as int),
                ..e
            }),
        decreases n - i,
    {
        let ghost before = enc@;
        assert(s@.ensures_[i as int] == s.ensures_@[i as int]@);
        assert(bv[i as int] == bound@[i as int]@);
        let trusted = match s.provenance {
            Provenance::Inferred => true,
            _ => match s.ensures_[i].provenance {
                Provenance::Annotated => true,
                _ => false,
            },
        };
        if trusted {
            let fact = match (enc.guard_term(block), &bound[i].bound) {
                (Some(g), Some(b)) => match Term::not(g) {
                    Some(ng) => Term::or2(ng, b.dup()),
                    None => None,
                },
                _ => None,
            };
            assert(opt_term(fact) == under_guard(e.guard(block as int), bv[i as int].bound));
            enc.add_opt(fact);
            assert(enc@.asserts =~= before.asserts + opt_seq(opt_term(fact)));
        }
        i += 1;
        assert(enc@.asserts =~= e.asserts + call_facts(s@, e.guard(block as int), av, rv, i as int));
    }
}

fn encode_call_ensures(f: &Function, t: &SummaryTable, enc: &mut EncodedFunc)
    requires
        old(enc).wf(),
        t.wf(),
    ensures
        final(enc).wf(),
        final(enc)@ == with_ensures(f, old(enc)@, t@, f.sites().len() as int),
{
    let sites = f.all_sites();
    let mut k: usize = 0;
    while k < sites.len()
        invariant
            k <= sites@.len(),
            sites@ == f.sites(),
            forall|k: int| 0 <= k < sites@.len() ==> f.has_site(#[trigger] sites@[k]),
            enc.wf(),
            t.wf(),
            enc@ == with_ensures(f, old(enc)@, t@, k as int),
        decreases sites@.len() - k,
    {
        let s = sites[k];
        if let Op::Call { dst, callee: Callee::Static(c), args } = f.op(s) {
            let av = value_terms(enc, args);
            let ghost rv = results_of(f, enc@, *dst);
            let results = call_results(f, &sites, enc, *dst);
            add_call_facts(enc, t, *c, s.0, &av, &results, Ghost(rv));
        }
        k += 1;
    }
}

/// The encoding of `f` with what its callees guarantee: each clause that a caller may rely on
/// is asserted at each call, for the case that the call is reached.
pub fn encode_func_with(p: &Program, f: FuncId, t: &SummaryTable) -> (r: Result<EncodedFunc, String>)
    requires
        t.wf(),
    ensures
        match r {
            Ok(e) => e.wf() && encoding_with(p, f, t@) == Ok::<EncodedV, Seq<char>>(e@) && acyclic(e@.dag),
            Err(m) => encoding_with(p, f, t@) == Err::<EncodedV, Seq<char>>(m@),
        },
{
    let func = match p.func(f) {
        Some(func) => func,
        None => {
            return Err(named(p, f, ": no body to encode"));
        },
    };
    let mut enc = encode_body(p, func);
    proof {
        lemma_with_ensures_frame(func, enc@, t@, func.sites().len() as int);
    }
    encode_call_ensures(func, t, &mut enc);
    assert(enc@.asserts.len() == enc.asserts@.len());
    if enc.asserts.len() > ASSERT_CAP {
        return Err(named(p, f, ": encoding exceeds 50000 assertions; skipped"));
    }
    Ok(enc)
}

} // verus!
