//! Queries are well formed: every symbol is applied to arguments of its sorts, every variable
//! is declared with its sort, and no name is declared twice.

use vstd::prelude::*;
use crate::encode::{
    branch_cond_of, branch_value, call_facts, const_def, const_term_of, declared, declared_all,
    declared_conds, declared_sites, defined, edge_guard_of, edges_from, edges_into, encoded,
    encoded_decls, encoded_start, encoding, encoding_with, forward_block, forward_order,
    guard_name_of, guard_value, guarded, havoc_name_of, opt_seq, put_slot, results_of, results_upto,
    seq_invariant_of, seq_lit_of, slice_made, the_cut, the_topo, under_guard, value_name_of,
    values_at, values_of, with_ensures, EncodedV, ForwardV,
};
use crate::graph::succ_graph;
use crate::ir::{first_index, ConstVal, FuncId, Function, Op, Program, TypeId, ValueId, ValueKind};
use crate::ops::{
    base_bounds, binop_of, op_def_of, operand_or, phi_kept, phi_of, phi_pick, slice_of,
};
use crate::query::{sorted_consts, sorted_consts_sorts, QueryV};
use crate::summary::{
    binding, binding_map, bound_all, bound_clause, bound_term, iface_names_differ, ClauseV,
    IfaceVar, SummaryV, TableV,
};
use crate::term::{lit_limit, mk_not, t_eq, Sort, TermV};
use crate::text::{dec, dec_injective};
use crate::types::{int_repr_of, int_widths, sort_of_type};

verus! {

/// Constants with their sorts.
pub type Decls = Seq<(Seq<char>, Sort)>;

/// Whether every variable of `t` is declared.
pub open spec fn over(t: TermV, cs: Decls) -> bool
    decreases t,
{
    match t {
        TermV::Var(n, s) => cs.contains((n, s)),
        TermV::BoolLit(_) | TermV::PtrNil | TermV::BvLit(_, _) => true,
        TermV::Eq(a, b) => over(*a, cs) && over(*b, cs),
        TermV::Not(a) => over(*a, cs),
        TermV::And(v) => forall|i: int| 0 <= i < v.len() ==> over(#[trigger] v[i], cs),
        TermV::Or(v) => forall|i: int| 0 <= i < v.len() ==> over(#[trigger] v[i], cs),
        TermV::Ite(c, a, b) => over(*c, cs) && over(*a, cs) && over(*b, cs),
        TermV::BvBin(_, a, b) => over(*a, cs) && over(*b, cs),
        TermV::BvCmp(_, a, b) => over(*a, cs) && over(*b, cs),
        TermV::PtrIsNil(a) => over(*a, cs),
        TermV::SeqVal(a, b) => over(*a, cs) && over(*b, cs),
        TermV::SeqLen(a) => over(*a, cs),
        TermV::SeqCap(a) => over(*a, cs),
    }
}

/// A term that can stand where `cs` are declared.
pub open spec fn good(t: TermV, cs: Decls) -> bool {
    t.well_sorted() && over(t, cs)
}

/// A term that can be asserted where `cs` are declared.
pub open spec fn fact(t: TermV, cs: Decls) -> bool {
    good(t, cs) && t.sort() == Sort::Bool
}

/// Whether all of `s` can be asserted.
pub open spec fn facts(s: Seq<TermV>, cs: Decls) -> bool {
    forall|i: int| 0 <= i < s.len() ==> fact(#[trigger] s[i], cs)
}

/// Whether no name is declared twice.
pub open spec fn distinct(cs: Decls) -> bool {
    forall|i: int, j: int| 0 <= i < j < cs.len() ==> (#[trigger] cs[i]).0 != (#[trigger] cs[j]).0
}

/// A query that a solver can read.
pub open spec fn well_formed(q: QueryV) -> bool {
    distinct(q.consts) && facts(q.asserts, q.consts)
}

// ---- Terms ----

/// A term over some constants is one over more.
pub proof fn lemma_over_more(t: TermV, a: Decls, b: Decls)
    requires
        over(t, a),
        forall|c: (Seq<char>, Sort)| a.contains(c) ==> #[trigger] b.contains(c),
    ensures
        over(t, b),
    decreases t,
{
    match t {
        TermV::Var(n, s) => {
            assert(b.contains((n, s)));
        },
        TermV::BoolLit(_) | TermV::PtrNil | TermV::BvLit(_, _) => {},
        TermV::Eq(x, y) | TermV::BvBin(_, x, y) | TermV::BvCmp(_, x, y) | TermV::SeqVal(x, y) => {
            lemma_over_more(*x, a, b);
            lemma_over_more(*y, a, b);
        },
        TermV::Not(x) | TermV::PtrIsNil(x) | TermV::SeqLen(x) | TermV::SeqCap(x) => {
            lemma_over_more(*x, a, b);
        },
        TermV::And(v) | TermV::Or(v) => {
            assert forall|i: int| 0 <= i < v.len() implies over(#[trigger] v[i], b) by {
                lemma_over_more(v[i], a, b);
            }
        },
        TermV::Ite(c, x, y) => {
            lemma_over_more(*c, a, b);
            lemma_over_more(*x, a, b);
            lemma_over_more(*y, a, b);
        },
    }
}

/// Whether the names of all variables of `t` are in `d`.
pub open spec fn names_in(t: TermV, d: Set<Seq<char>>) -> bool
    decreases t,
{
    match t {
        TermV::Var(n, s) => d.contains(n),
        TermV::BoolLit(_) | TermV::PtrNil | TermV::BvLit(_, _) => true,
        TermV::Eq(a, b) => names_in(*a, d) && names_in(*b, d),
        TermV::Not(a) => names_in(*a, d),
        TermV::And(v) => forall|i: int| 0 <= i < v.len() ==> names_in(#[trigger] v[i], d),
        TermV::Or(v) => forall|i: int| 0 <= i < v.len() ==> names_in(#[trigger] v[i], d),
        TermV::Ite(c, a, b) => names_in(*c, d) && names_in(*a, d) && names_in(*b, d),
        TermV::BvBin(_, a, b) => names_in(*a, d) && names_in(*b, d),
        TermV::BvCmp(_, a, b) => names_in(*a, d) && names_in(*b, d),
        TermV::PtrIsNil(a) => names_in(*a, d),
        TermV::SeqVal(a, b) => names_in(*a, d) && names_in(*b, d),
        TermV::SeqLen(a) => names_in(*a, d),
        TermV::SeqCap(a) => names_in(*a, d),
    }
}

proof fn lemma_names_more(t: TermV, a: Set<Seq<char>>, b: Set<Seq<char>>)
    requires
        names_in(t, a),
        a.subset_of(b),
    ensures
        names_in(t, b),
    decreases t,
{
    match t {
        TermV::Var(n, s) => {},
        TermV::BoolLit(_) | TermV::PtrNil | TermV::BvLit(_, _) => {},
        TermV::Eq(x, y) | TermV::BvBin(_, x, y) | TermV::BvCmp(_, x, y) | TermV::SeqVal(x, y) => {
            lemma_names_more(*x, a, b);
            lemma_names_more(*y, a, b);
        },
        TermV::Not(x) | TermV::PtrIsNil(x) | TermV::SeqLen(x) | TermV::SeqCap(x) => {
            lemma_names_more(*x, a, b);
        },
        TermV::And(v) | TermV::Or(v) => {
            assert forall|i: int| 0 <= i < v.len() implies names_in(#[trigger] v[i], b) by {
                lemma_names_more(v[i], a, b);
            }
        },
        TermV::Ite(c, x, y) => {
            lemma_names_more(*c, a, b);
            lemma_names_more(*x, a, b);
            lemma_names_more(*y, a, b);
        },
    }
}

/// The names of a term's variables are those that it lists.
pub proof fn lemma_vars_list(t: TermV, m: Map<Seq<char>, Sort>)
    ensures
        m.dom().subset_of(t.vars_into(m).dom()),
        names_in(t, t.vars_into(m).dom()),
    decreases t, 0nat,
{
    match t {
        TermV::Var(n, s) => {},
        TermV::BoolLit(_) | TermV::PtrNil | TermV::BvLit(_, _) => {},
        TermV::Eq(x, y) | TermV::BvBin(_, x, y) | TermV::BvCmp(_, x, y) | TermV::SeqVal(x, y) => {
            let m1 = (*x).vars_into(m);
            lemma_vars_list(*x, m);
            lemma_vars_list(*y, m1);
            lemma_names_more(*x, m1.dom(), (*y).vars_into(m1).dom());
        },
        TermV::Not(x) | TermV::PtrIsNil(x) | TermV::SeqLen(x) | TermV::SeqCap(x) => {
            lemma_vars_list(*x, m);
        },
        TermV::And(v) | TermV::Or(v) => {
            lemma_list_vars(v, v.len(), m);
        },
        TermV::Ite(c, x, y) => {
            let m1 = (*c).vars_into(m);
            let m2 = (*x).vars_into(m1);
            lemma_vars_list(*c, m);
            lemma_vars_list(*x, m1);
            lemma_vars_list(*y, m2);
            lemma_names_more(*c, m1.dom(), (*y).vars_into(m2).dom());
            lemma_names_more(*x, m2.dom(), (*y).vars_into(m2).dom());
        },
    }
}

proof fn lemma_list_vars(v: Seq<TermV>, n: nat, m: Map<Seq<char>, Sort>)
    requires
        n <= v.len(),
    ensures
        m.dom().subset_of(TermV::list_vars(v, n, m).dom()),
        forall|i: int| 0 <= i < n ==> names_in(#[trigger] v[i], TermV::list_vars(v, n, m).dom()),
    decreases v, n,
{
    if n > 0 {
        let m1 = TermV::list_vars(v, (n - 1) as nat, m);
        lemma_list_vars(v, (n - 1) as nat, m);
        lemma_vars_list(v[n - 1], m1);
        let m2 = v[n - 1].vars_into(m1);
        assert forall|i: int| 0 <= i < n implies names_in(#[trigger] v[i], m2.dom()) by {
            if i < n - 1 {
                lemma_names_more(v[i], m1.dom(), m2.dom());
            }
        }
    }
}

/// Replacing variables by terms of their sorts leaves a term well sorted, of its sort.
pub proof fn substitution_keeps_sorts(t: TermV, m: Map<Seq<char>, TermV>)
    requires
        t.well_sorted(),
        t.subst_fits(m),
        forall|n: Seq<char>| m.contains_key(n) ==> (#[trigger] m[n]).well_sorted(),
    ensures
        t.subst(m).well_sorted(),
        t.subst(m).sort() == t.sort(),
    decreases t,
{
    match t {
        TermV::Var(n, s) => {},
        TermV::BoolLit(_) | TermV::PtrNil | TermV::BvLit(_, _) => {},
        TermV::Eq(x, y) | TermV::BvBin(_, x, y) | TermV::BvCmp(_, x, y) | TermV::SeqVal(x, y) => {
            substitution_keeps_sorts(*x, m);
            substitution_keeps_sorts(*y, m);
        },
        TermV::Not(x) | TermV::PtrIsNil(x) | TermV::SeqLen(x) | TermV::SeqCap(x) => {
            substitution_keeps_sorts(*x, m);
        },
        TermV::And(v) | TermV::Or(v) => {
            assert forall|i: int| 0 <= i < v.len() implies (#[trigger] v[i]).subst(m).well_sorted()
                && v[i].subst(m).sort() == v[i].sort() by {
                substitution_keeps_sorts(v[i], m);
            }
        },
        TermV::Ite(c, x, y) => {
            substitution_keeps_sorts(*c, m);
            substitution_keeps_sorts(*x, m);
            substitution_keeps_sorts(*y, m);
        },
    }
}

/// Where every variable is replaced by a term over `cs`, the result is over `cs`.
pub proof fn lemma_subst_over(t: TermV, m: Map<Seq<char>, TermV>, cs: Decls)
    requires
        names_in(t, m.dom()),
        forall|n: Seq<char>| m.contains_key(n) ==> over(#[trigger] m[n], cs),
    ensures
        over(t.subst(m), cs),
    decreases t,
{
    match t {
        TermV::Var(n, s) => {},
        TermV::BoolLit(_) | TermV::PtrNil | TermV::BvLit(_, _) => {},
        TermV::Eq(x, y) | TermV::BvBin(_, x, y) | TermV::BvCmp(_, x, y) | TermV::SeqVal(x, y) => {
            lemma_subst_over(*x, m, cs);
            lemma_subst_over(*y, m, cs);
        },
        TermV::Not(x) | TermV::PtrIsNil(x) | TermV::SeqLen(x) | TermV::SeqCap(x) => {
            lemma_subst_over(*x, m, cs);
        },
        TermV::And(v) | TermV::Or(v) => {
            assert forall|i: int| 0 <= i < v.len() implies over((#[trigger] v[i]).subst(m), cs) by {
                lemma_subst_over(v[i], m, cs);
            }
        },
        TermV::Ite(c, x, y) => {
            lemma_subst_over(*c, m, cs);
            lemma_subst_over(*x, m, cs);
            lemma_subst_over(*y, m, cs);
        },
    }
}

/// Whether all terms in `s` are good.
pub open spec fn good_slots(s: Seq<Option<TermV>>, cs: Decls) -> bool {
    forall|i: int| 0 <= i < s.len() ==> (#[trigger] s[i] matches Some(t) ==> good(t, cs))
}

/// A clause over a caller's terms is a fact of the caller, and so is its violation.
pub proof fn bound_clause_is_a_fact(
    c: ClauseV,
    args: Seq<Option<TermV>>,
    results: Seq<Option<TermV>>,
    cs: Decls,
)
    requires
        c.term.well_sorted(),
        good_slots(args, cs),
        good_slots(results, cs),
    ensures
        bound_clause(c, args, results).bound matches Some(t) ==> fact(t, cs),
        bound_clause(c, args, results).violation matches Some(t) ==> fact(t, cs),
{
    let t = c.term;
    let m = binding_map(t, args, results);
    if bound_term(t, args, results) is Some {
        assert forall|n: Seq<char>| m.contains_key(n) implies good(#[trigger] m[n], cs) by {
            assert(t.vars().contains_key(n));
            assert(binding(n, args, results) is Some);
        }
        substitution_keeps_sorts(t, m);
        lemma_vars_list(t, Map::empty());
        assert(t.vars().dom() =~= m.dom());
        lemma_subst_over(t, m, cs);
    }
}

// ---- Declarations ----

/// An encoding whose terms can stand and be asserted where its constants are declared.
pub open spec fn enc_good(e: EncodedV) -> bool {
    &&& facts(e.asserts, e.consts)
    &&& facts(e.guards, e.consts)
    &&& forall|v: ValueId| #[trigger] e.values.contains_key(v) ==> good(e.values[v], e.consts)
}

proof fn lemma_declaring(e: EncodedV, name: Seq<char>, sort: Sort)
    requires
        enc_good(e),
    ensures
        enc_good(e.declaring(name, sort)),
        e.declaring(name, sort).consts.contains((name, sort)),
{
    let a = e.consts;
    let b = a.push((name, sort));
    assert(b[a.len() as int] == (name, sort));
    assert forall|c: (Seq<char>, Sort)| a.contains(c) implies #[trigger] b.contains(c) by {
        let i = choose|i: int| 0 <= i < a.len() && a[i] == c;
        assert(b[i] == c);
    }
    assert forall|i: int| 0 <= i < e.asserts.len() implies fact(#[trigger] e.asserts[i], b) by {
        lemma_over_more(e.asserts[i], a, b);
    }
    assert forall|i: int| 0 <= i < e.guards.len() implies fact(#[trigger] e.guards[i], b) by {
        lemma_over_more(e.guards[i], a, b);
    }
    assert forall|v: ValueId| #[trigger] e.values.contains_key(v) implies good(e.values[v], b) by {
        lemma_over_more(e.values[v], a, b);
    }
}

proof fn lemma_with_opt(e: EncodedV, t: Option<TermV>)
    requires
        enc_good(e),
        t matches Some(x) ==> fact(x, e.consts),
    ensures
        enc_good(e.with_opt(t)),
{
}

proof fn lemma_seq_lit(len: int, cap: int, cs: Decls)
    requires
        0 <= len < 0x1_0000_0000_0000_0000,
        0 <= cap < 0x1_0000_0000_0000_0000,
    ensures
        seq_lit_of(len, cap) matches Some(t) && good(t, cs),
{
    reveal_with_fuel(over, 3);
    reveal_with_fuel(TermV::well_sorted, 3);
    reveal_with_fuel(TermV::sort, 3);
}

proof fn lemma_const_good(p: &Program, ty: TypeId, c: ConstVal, cs: Decls)
    ensures
        const_term_of(p, ty, c) matches Some(t) ==> good(t, cs),
{
    match c {
        ConstVal::Int(i) => {
            int_widths(&p.types, ty);
            if let Some((w, s)) = int_repr_of(&p.types, ty) {
                assert(0 <= (i as int) % lit_limit(w) < lit_limit(w));
            }
        },
        ConstVal::Nil => {
            lemma_seq_lit(0, 0, cs);
        },
        ConstVal::Str(bytes) => {
            let n = bytes.len();
            lemma_seq_lit(n as int, n as int, cs);
        },
        _ => {},
    }
}

proof fn lemma_declared_good(p: &Program, f: &Function, e: EncodedV, v: ValueId)
    requires
        enc_good(e),
    ensures
        enc_good(declared(p, f, e, v)),
{
    reveal_with_fuel(over, 3);
    reveal_with_fuel(TermV::well_sorted, 3);
    reveal_with_fuel(TermV::sort, 3);
    if !e.values.contains_key(v) {
        if let Some(sort) = sort_of_type(&p.types, f.type_of(v)) {
            let name = value_name_of(f, v);
            let t = TermV::Var(name, sort);
            let e1 = e.declaring(name, sort);
            lemma_declaring(e, name, sort);
            assert(good(t, e1.consts));
            let e2 = if sort == Sort::GoSeq && !slice_made(f, v) {
                e1.with_opt(seq_invariant_of(t))
            } else {
                e1
            };
            lemma_with_opt(e1, seq_invariant_of(t));
            if let ValueKind::Const(c) = f.kind_of(v) {
                lemma_const_good(p, f.type_of(v), c, e2.consts);
            }
            lemma_with_opt(e2, const_def(p, f, v, t));
            let e3 = e2.with_opt(const_def(p, f, v, t));
            let e4 = EncodedV { values: e3.values.insert(v, t), ..e3 };
            assert(e3.consts == e1.consts);
            assert forall|u: ValueId| #[trigger] e4.values.contains_key(u) implies good(
                e4.values[u],
                e4.consts,
            ) by {
                if u != v {
                    assert(e3.values.contains_key(u));
                }
            }
        }
    }
}

proof fn lemma_declared_all_good(p: &Program, f: &Function, e: EncodedV, vs: Seq<ValueId>, n: int)
    requires
        enc_good(e),
    ensures
        enc_good(declared_all(p, f, e, vs, n)),
    decreases n,
{
    if n > 0 {
        lemma_declared_all_good(p, f, e, vs, n - 1);
        lemma_declared_good(p, f, declared_all(p, f, e, vs, n - 1), vs[n - 1]);
    }
}

proof fn lemma_declared_sites_good(p: &Program, f: &Function, e: EncodedV, k: int)
    requires
        enc_good(e),
    ensures
        enc_good(declared_sites(p, f, e, k)),
    decreases k,
{
    if k > 0 {
        lemma_declared_sites_good(p, f, e, k - 1);
        let vs = values_of(f.op_at(f.sites()[k - 1]));
        lemma_declared_all_good(p, f, declared_sites(p, f, e, k - 1), vs, vs.len() as int);
    }
}

/// Whether the unmodelled conditions of the first `n` blocks are declared.
spec fn conds_declared(f: &Function, e: EncodedV, n: int) -> bool {
    forall|b: int|
        0 <= b < n ==> (#[trigger] branch_value(f, b) matches Some(c) ==> e.values.contains_key(c)
            || e.consts.contains((havoc_name_of(b), Sort::Bool)))
}

proof fn lemma_declared_conds_good(f: &Function, e: EncodedV, n: int)
    requires
        enc_good(e),
    ensures
        enc_good(declared_conds(f, e, n)),
        declared_conds(f, e, n).values == e.values,
        conds_declared(f, declared_conds(f, e, n), n),
    decreases n,
{
    if n > 0 {
        lemma_declared_conds_good(f, e, n - 1);
        let before = declared_conds(f, e, n - 1);
        let after = declared_conds(f, e, n);
        lemma_declaring(before, havoc_name_of(n - 1), Sort::Bool);
        assert forall|b: int| 0 <= b < n implies (#[trigger] branch_value(f, b) matches Some(c)
            ==> after.values.contains_key(c) || after.consts.contains(
            (havoc_name_of(b), Sort::Bool),
        )) by {
            if b < n - 1 {
                if let Some(c) = branch_value(f, b) {
                    if !before.values.contains_key(c) {
                        let i = choose|i: int|
                            0 <= i < before.consts.len() && before.consts[i] == (
                                havoc_name_of(b),
                                Sort::Bool,
                            );
                        assert(after.consts[i] == before.consts[i]);
                    }
                }
            }
        }
    }
}

proof fn lemma_start_good(f: &Function)
    ensures
        enc_good(encoded_start(f)),
{
    let e = encoded_start(f);
    assert forall|i: int| 0 <= i < e.guards.len() implies fact(#[trigger] e.guards[i], e.consts) by {
        assert(e.consts[i] == (guard_name_of(i), Sort::Bool));
    }
}

proof fn lemma_decls_good(p: &Program, f: &Function)
    ensures
        enc_good(encoded_decls(p, f)),
        conds_declared(f, encoded_decls(p, f), f.blocks@.len() as int),
{
    let e0 = encoded_start(f);
    let e1 = declared_all(p, f, e0, f.params@, f.params@.len() as int);
    lemma_start_good(f);
    lemma_declared_all_good(p, f, e0, f.params@, f.params@.len() as int);
    lemma_declared_sites_good(p, f, e1, f.sites().len() as int);
    lemma_declared_conds_good(
        f,
        declared_sites(p, f, e1, f.sites().len() as int),
        f.blocks@.len() as int,
    );
}

// ---- Guards ----

proof fn lemma_edge_guard_good(f: &Function, e: EncodedV, from: int, to: int)
    requires
        enc_good(e),
        conds_declared(f, e, f.blocks@.len() as int),
        0 <= from,
    ensures
        edge_guard_of(f, e, from, to) matches Some(t) ==> fact(t, e.consts),
{
    reveal_with_fuel(over, 3);
    reveal_with_fuel(TermV::well_sorted, 3);
    reveal_with_fuel(TermV::sort, 3);
    if from < e.guards.len() && from < f.blocks@.len() {
        let g = e.guards[from];
        assert(fact(g, e.consts));
        if let Some(cond) = branch_value(f, from) {
            if let Some(c) = branch_cond_of(f, e, from) {
                assert(good(c, e.consts));
                assert(seq![g, c][0] == g && seq![g, c][1] == c);
                if let Some(nc) = mk_not(c) {
                    assert(seq![g, nc][0] == g && seq![g, nc][1] == nc);
                }
            }
        }
    }
}

proof fn lemma_edges_from_good(f: &Function, e: EncodedV, b: int, s: int, j: int)
    requires
        enc_good(e),
        conds_declared(f, e, f.blocks@.len() as int),
        0 <= b,
    ensures
        facts(edges_from(f, e, b, s, j), e.consts),
    decreases j,
{
    if j > 0 {
        lemma_edges_from_good(f, e, b, s, j - 1);
        lemma_edge_guard_good(f, e, b, s);
    }
}

proof fn lemma_edges_into_good(f: &Function, e: EncodedV, s: int, n: int)
    requires
        enc_good(e),
        conds_declared(f, e, f.blocks@.len() as int),
    ensures
        facts(edges_into(f, e, s, n), e.consts),
    decreases n,
{
    if n > 0 {
        lemma_edges_into_good(f, e, s, n - 1);
        lemma_edges_from_good(f, e, n - 1, s, e.dag[n - 1].len() as int);
    }
}

proof fn lemma_guarded_good(f: &Function, e: EncodedV, reachable: Seq<bool>, n: int)
    requires
        enc_good(e),
        conds_declared(f, e, f.blocks@.len() as int),
        n <= e.guards.len(),
    ensures
        enc_good(guarded(f, e, reachable, n)),
        guarded(f, e, reachable, n).consts == e.consts,
        guarded(f, e, reachable, n).values == e.values,
        guarded(f, e, reachable, n).guards == e.guards,
    decreases n,
{
    if n > 0 {
        lemma_guarded_good(f, e, reachable, n - 1);
        let before = guarded(f, e, reachable, n - 1);
        let g = before.guards[n - 1];
        let v = guard_value(f, before, reachable, n - 1);
        lemma_edges_into_good(f, before, n - 1, before.dag.len() as int);
        assert(fact(g, e.consts));
        assert(fact(v, e.consts));
        assert(fact(t_eq(g, v), e.consts));
    }
}

// ---- Operations ----

proof fn lemma_phi_kept_good(f: &Function, e: EncodedV, block: int, edges: Seq<ValueId>, n: int)
    requires
        enc_good(e),
        conds_declared(f, e, f.blocks@.len() as int),
    ensures
        phi_kept(f, e, block, edges, n) matches Some(kept) ==> forall|i: int|
            0 <= i < kept.len() ==> fact((#[trigger] kept[i]).0, e.consts) && good(
                kept[i].1,
                e.consts,
            ),
    decreases n,
{
    if n > 0 {
        lemma_phi_kept_good(f, e, block, edges, n - 1);
        let preds = f.blocks@[block].preds@;
        if n - 1 < preds.len() {
            lemma_edge_guard_good(f, e, preds[n - 1] as int, block);
        }
    }
}

proof fn lemma_phi_pick_good(kept: Seq<(TermV, TermV)>, cs: Decls)
    requires
        forall|i: int|
            0 <= i < kept.len() ==> fact((#[trigger] kept[i]).0, cs) && good(kept[i].1, cs),
    ensures
        phi_pick(kept) matches Some(t) ==> good(t, cs),
    decreases kept.len(),
{
    if kept.len() > 1 {
        let rest = kept.drop_first();
        assert forall|i: int| 0 <= i < rest.len() implies fact((#[trigger] rest[i]).0, cs) && good(
            rest[i].1,
            cs,
        ) by {
            assert(rest[i] == kept[i + 1]);
        }
        lemma_phi_pick_good(rest, cs);
        assert(fact(kept[0].0, cs));
    } else if kept.len() == 1 {
        assert(good(kept[0].1, cs));
    }
}

proof fn lemma_phi_good(f: &Function, e: EncodedV, block: int, edges: Seq<ValueId>)
    requires
        enc_good(e),
        conds_declared(f, e, f.blocks@.len() as int),
    ensures
        phi_of(f, e, block, edges) matches Some(t) ==> good(t, e.consts),
{
    lemma_phi_kept_good(f, e, block, edges, edges.len() as int);
    if let Some(kept) = phi_kept(f, e, block, edges, edges.len() as int) {
        lemma_phi_pick_good(kept, e.consts);
    }
}

proof fn lemma_slice_good(
    p: &Program,
    f: &Function,
    e: EncodedV,
    base: ValueId,
    low: Option<ValueId>,
    high: Option<ValueId>,
    max: Option<ValueId>,
)
    requires
        enc_good(e),
    ensures
        slice_of(p, f, e, base, low, high, max) matches Some(t) ==> good(t, e.consts),
{
    reveal_with_fuel(over, 3);
    reveal_with_fuel(TermV::well_sorted, 3);
    reveal_with_fuel(TermV::sort, 3);
    if let Some((len, cap)) = base_bounds(p, f, e, base) {
        assert(good(len, e.consts));
        assert(good(cap, e.consts));
        assert(operand_or(e, low, TermV::BvLit(64, 0)) matches Some(t) ==> good(t, e.consts));
        assert(operand_or(e, high, len) matches Some(t) ==> good(t, e.consts));
        assert(operand_or(e, max, cap) matches Some(t) ==> good(t, e.consts));
    }
}

proof fn lemma_binop_good(
    p: &Program,
    f: &Function,
    kind: crate::ir::BinOpKind,
    lhs: ValueId,
    l: TermV,
    r: TermV,
    cs: Decls,
)
    requires
        good(l, cs),
        good(r, cs),
    ensures
        binop_of(p, f, kind, lhs, l, r) matches Some(t) ==> good(t, cs),
{
    reveal_with_fuel(over, 3);
    reveal_with_fuel(TermV::well_sorted, 3);
    reveal_with_fuel(TermV::sort, 3);
    int_widths(&p.types, f.type_of(lhs));
}

proof fn lemma_op_good(p: &Program, f: &Function, e: EncodedV, block: int, op: Op)
    requires
        enc_good(e),
        conds_declared(f, e, f.blocks@.len() as int),
    ensures
        op_def_of(p, f, e, block, op) matches Some(t) ==> fact(t, e.consts),
{
    reveal_with_fuel(over, 3);
    reveal_with_fuel(TermV::well_sorted, 3);
    reveal_with_fuel(TermV::sort, 3);
    match op {
        Op::BinOp { dst, kind, lhs, rhs } => {
            if let (Some(l), Some(r)) = (e.value(lhs), e.value(rhs)) {
                lemma_binop_good(p, f, kind, lhs, l, r, e.consts);
            }
        },
        Op::UnOp { dst, kind, operand } => {
            int_widths(&p.types, f.type_of(operand));
        },
        Op::Phi { dst, edges } => {
            lemma_phi_good(f, e, block, edges@);
        },
        Op::Slice { dst, base, low, high, max } => {
            lemma_slice_good(p, f, e, base, low, high, max);
        },
        _ => {},
    }
}

proof fn lemma_defined_good(p: &Program, f: &Function, e: EncodedV, k: int)
    requires
        enc_good(e),
        conds_declared(f, e, f.blocks@.len() as int),
    ensures
        enc_good(defined(p, f, e, k)),
        defined(p, f, e, k).consts == e.consts,
        defined(p, f, e, k).values == e.values,
    decreases k,
{
    if k > 0 {
        lemma_defined_good(p, f, e, k - 1);
        let before = defined(p, f, e, k - 1);
        let s = f.sites()[k - 1];
        lemma_op_good(p, f, before, s.0 as int, f.op_at(s));
        lemma_with_opt(before, op_def_of(p, f, before, s.0 as int, f.op_at(s)));
    }
}

// ---- Loads ----

proof fn lemma_forward_block_good(f: &Function, e: EncodedV, st: ForwardV, b: int, n: int)
    requires
        enc_good(e),
        facts(st.found, e.consts),
    ensures
        facts(forward_block(f, e, st, b, n).found, e.consts),
    decreases n,
{
    if n > 0 {
        lemma_forward_block_good(f, e, st, b, n - 1);
    }
}

proof fn lemma_forward_good(f: &Function, e: EncodedV, order: Seq<int>, n: int)
    requires
        enc_good(e),
    ensures
        facts(forward_order(f, e, order, n).found, e.consts),
    decreases n,
{
    if n > 0 {
        lemma_forward_good(f, e, order, n - 1);
        let b = order[n - 1];
        if 0 <= b < f.blocks@.len() {
            lemma_forward_block_good(
                f,
                e,
                forward_order(f, e, order, n - 1),
                b,
                f.blocks@[b].instrs@.len() as int,
            );
        }
    }
}

proof fn lemma_encoded_good(p: &Program, f: &Function)
    ensures
        enc_good(encoded(p, f)),
        encoded(p, f).consts == encoded_decls(p, f).consts,
{
    let d = encoded_decls(p, f);
    lemma_decls_good(p, f);
    crate::encode::lemma_decls_frame(p, f);
    let e = guarded(f, d, the_cut(succ_graph(f)).1, f.blocks@.len() as int);
    lemma_guarded_good(f, d, the_cut(succ_graph(f)).1, f.blocks@.len() as int);
    lemma_defined_good(p, f, e, f.sites().len() as int);
    let x = defined(p, f, e, f.sites().len() as int);
    let order = the_topo(x.dag);
    lemma_forward_good(f, x, order, order.len() as int);
}

// ---- Names ----

proof fn lemma_first_chars(f: &Function, b: int, v: ValueId)
    ensures
        guard_name_of(b).len() > 0,
        guard_name_of(b)[0] == 'g',
        havoc_name_of(b).len() > 0,
        havoc_name_of(b)[0] == 'h',
        value_name_of(f, v).len() > 0,
        value_name_of(f, v)[0] == 'p' || value_name_of(f, v)[0] == 'v',
{
    reveal_strlit("g");
    reveal_strlit("hc");
    reveal_strlit("v");
}

proof fn lemma_first_index(s: Seq<ValueId>, x: ValueId, from: int)
    requires
        0 <= from,
    ensures
        first_index(s, x, from) matches Some(i) ==> from <= i < s.len() && s[i] == x,
    decreases s.len() - from,
{
    if from < s.len() && s[from] != x {
        lemma_first_index(s, x, from + 1);
    }
}

/// Different values have different names.
pub proof fn value_names_differ(f: &Function, a: ValueId, b: ValueId)
    requires
        value_name_of(f, a) == value_name_of(f, b),
        f.params@.len() <= u32::MAX,
    ensures
        a == b,
{
    reveal_strlit("v");
    let x = value_name_of(f, a);
    let y = value_name_of(f, b);
    lemma_first_index(f.params@, a, 0);
    lemma_first_index(f.params@, b, 0);
    assert(x[0] == y[0]);
    match (first_index(f.params@, a, 0), first_index(f.params@, b, 0)) {
        (Some(i), Some(j)) => {
            iface_names_differ(IfaceVar::Param(i as u32), IfaceVar::Param(j as u32));
        },
        (None, None) => {
            assert(x.skip(1) =~= dec(a.0 as nat));
            assert(y.skip(1) =~= dec(b.0 as nat));
            dec_injective(a.0 as nat, b.0 as nat);
        },
        _ => {},
    }
}

/// Whether `c` is the name of a guard or of a declared value.
spec fn known_name(f: &Function, e: EncodedV, c: Seq<char>) -> bool {
    ||| c.len() > 0 && c[0] == 'g'
    ||| exists|v: ValueId| #[trigger] e.values.contains_key(v) && c == value_name_of(f, v)
}

spec fn names_good(f: &Function, e: EncodedV) -> bool {
    &&& distinct(e.consts)
    &&& forall|i: int| 0 <= i < e.consts.len() ==> known_name(f, e, (#[trigger] e.consts[i]).0)
}

proof fn lemma_start_names(f: &Function)
    ensures
        names_good(f, encoded_start(f)),
{
    let e = encoded_start(f);
    reveal_strlit("g");
    assert forall|i: int, j: int| 0 <= i < j < e.consts.len() implies (#[trigger] e.consts[i]).0 != (
    #[trigger] e.consts[j]).0 by {
        assert(e.consts[i].0.skip(1) =~= dec(i as nat));
        assert(e.consts[j].0.skip(1) =~= dec(j as nat));
        if e.consts[i].0 == e.consts[j].0 {
            dec_injective(i as nat, j as nat);
        }
    }
}

proof fn lemma_declared_names(p: &Program, f: &Function, e: EncodedV, v: ValueId)
    requires
        names_good(f, e),
        f.params@.len() <= u32::MAX,
    ensures
        names_good(f, declared(p, f, e, v)),
{
    let after = declared(p, f, e, v);
    if !e.values.contains_key(v) && sort_of_type(&p.types, f.type_of(v)) is Some {
        let name = value_name_of(f, v);
        let n = e.consts.len() as int;
        assert(after.values.contains_key(v));
        assert(after.consts =~= e.consts.push((name, sort_of_type(&p.types, f.type_of(v)).unwrap())));
        assert forall|i: int| 0 <= i < after.consts.len() implies known_name(
            f,
            after,
            (#[trigger] after.consts[i]).0,
        ) by {
            if i < n {
                let c = e.consts[i].0;
                assert(known_name(f, e, c));
                if !(c.len() > 0 && c[0] == 'g') {
                    let u = choose|u: ValueId| #[trigger]
                        e.values.contains_key(u) && c == value_name_of(f, u);
                    assert(after.values.contains_key(u));
                }
            }
        }
        assert forall|i: int, j: int| 0 <= i < j < after.consts.len() implies (
        #[trigger] after.consts[i]).0 != (#[trigger] after.consts[j]).0 by {
            assert(after.consts[i] == e.consts[i]);
            if j == n {
                let c = e.consts[i].0;
                assert(known_name(f, e, c));
                lemma_first_chars(f, 0, v);
                if c == name {
                    let u = choose|u: ValueId| #[trigger]
                        e.values.contains_key(u) && c == value_name_of(f, u);
                    value_names_differ(f, u, v);
                }
            } else {
                assert(after.consts[j] == e.consts[j]);
            }
        }
    }
}

proof fn lemma_declared_all_names(p: &Program, f: &Function, e: EncodedV, vs: Seq<ValueId>, n: int)
    requires
        names_good(f, e),
        f.params@.len() <= u32::MAX,
    ensures
        names_good(f, declared_all(p, f, e, vs, n)),
    decreases n,
{
    if n > 0 {
        lemma_declared_all_names(p, f, e, vs, n - 1);
        lemma_declared_names(p, f, declared_all(p, f, e, vs, n - 1), vs[n - 1]);
    }
}

proof fn lemma_declared_sites_names(p: &Program, f: &Function, e: EncodedV, k: int)
    requires
        names_good(f, e),
        f.params@.len() <= u32::MAX,
    ensures
        names_good(f, declared_sites(p, f, e, k)),
    decreases k,
{
    if k > 0 {
        lemma_declared_sites_names(p, f, e, k - 1);
        let vs = values_of(f.op_at(f.sites()[k - 1]));
        lemma_declared_all_names(p, f, declared_sites(p, f, e, k - 1), vs, vs.len() as int);
    }
}

proof fn lemma_conds_names(f: &Function, e: EncodedV, n: int)
    requires
        names_good(f, e),
    ensures
        distinct(declared_conds(f, e, n).consts),
        declared_conds(f, e, n).values == e.values,
        forall|i: int|
            0 <= i < declared_conds(f, e, n).consts.len() ==> known_name(
                f,
                e,
                (#[trigger] declared_conds(f, e, n).consts[i]).0,
            ) || exists|b: int|
                0 <= b < n && declared_conds(f, e, n).consts[i].0 == #[trigger] havoc_name_of(b),
    decreases n,
{
    if n > 0 {
        lemma_conds_names(f, e, n - 1);
        let before = declared_conds(f, e, n - 1);
        let after = declared_conds(f, e, n);
        let name = havoc_name_of(n - 1);
        if after.consts.len() > before.consts.len() {
            let m = before.consts.len() as int;
            assert forall|i: int| 0 <= i < after.consts.len() implies known_name(
                f,
                e,
                (#[trigger] after.consts[i]).0,
            ) || exists|b: int| 0 <= b < n && after.consts[i].0 == #[trigger] havoc_name_of(b) by {
                if i < m {
                    assert(after.consts[i] == before.consts[i]);
                }
            }
            assert forall|i: int, j: int| 0 <= i < j < after.consts.len() implies (
            #[trigger] after.consts[i]).0 != (#[trigger] after.consts[j]).0 by {
                assert(after.consts[i] == before.consts[i]);
                if j == m {
                    let c = before.consts[i].0;
                    lemma_first_chars(f, n - 1, ValueId(0));
                    if c == name {
                        if known_name(f, e, c) {
                            let u = choose|u: ValueId| #[trigger]
                                e.values.contains_key(u) && c == value_name_of(f, u);
                            lemma_first_chars(f, 0, u);
                        } else {
                            let b = choose|b: int| 0 <= b < n - 1 && c == #[trigger] havoc_name_of(b);
                            reveal_strlit("hc");
                            assert(havoc_name_of(b).skip(2) =~= dec(b as nat));
                            assert(havoc_name_of(n - 1).skip(2) =~= dec((n - 1) as nat));
                            dec_injective(b as nat, (n - 1) as nat);
                        }
                    }
                } else {
                    assert(after.consts[j] == before.consts[j]);
                }
            }
        }
    }
}

proof fn lemma_decls_distinct(p: &Program, f: &Function)
    requires
        f.params@.len() <= u32::MAX,
    ensures
        distinct(encoded_decls(p, f).consts),
{
    let e0 = encoded_start(f);
    let e1 = declared_all(p, f, e0, f.params@, f.params@.len() as int);
    lemma_start_names(f);
    lemma_declared_all_names(p, f, e0, f.params@, f.params@.len() as int);
    lemma_declared_sites_names(p, f, e1, f.sites().len() as int);
    lemma_conds_names(
        f,
        declared_sites(p, f, e1, f.sites().len() as int),
        f.blocks@.len() as int,
    );
}

// ---- What callees guarantee ----

/// Whether all guarantees in the table are well sorted.
pub open spec fn sorted_ensures(t: TableV) -> bool {
    forall|f: FuncId, i: int|
        0 <= i < t.summary(f).ensures_.len() ==> (#[trigger] t.summary(
            f,
        ).ensures_[i]).term.well_sorted()
}

proof fn lemma_results_good(f: &Function, e: EncodedV, d: ValueId, k: int)
    requires
        enc_good(e),
    ensures
        good_slots(results_upto(f, e, d, k), e.consts),
    decreases k,
{
    if k > 0 {
        lemma_results_good(f, e, d, k - 1);
        let before = results_upto(f, e, d, k - 1);
        if let Op::Extract { dst, tuple, index } = f.op_at(f.sites()[k - 1]) {
            let after = put_slot(before, index as int, e.value(dst));
            assert forall|i: int| 0 <= i < after.len() implies (#[trigger] after[i] matches Some(t)
                ==> good(t, e.consts)) by {
                if i < before.len() {
                    assert(before[i] matches Some(t) ==> good(t, e.consts));
                }
            }
        }
    }
}

proof fn lemma_call_facts_good(
    s: SummaryV,
    g: Option<TermV>,
    args: Seq<Option<TermV>>,
    results: Seq<Option<TermV>>,
    n: int,
    cs: Decls,
)
    requires
        g matches Some(t) ==> fact(t, cs),
        good_slots(args, cs),
        good_slots(results, cs),
        forall|i: int| 0 <= i < s.ensures_.len() ==> (#[trigger] s.ensures_[i]).term.well_sorted(),
        n <= s.ensures_.len(),
    ensures
        facts(call_facts(s, g, args, results, n), cs),
    decreases n,
{
    if n > 0 {
        lemma_call_facts_good(s, g, args, results, n - 1, cs);
        let c = s.ensures_[n - 1];
        bound_clause_is_a_fact(c, args, results, cs);
        let b = bound_all(s.ensures_, args, results)[n - 1].bound;
        if let (Some(gt), Some(bt)) = (g, b) {
            if let Some(ng) = mk_not(gt) {
                assert(seq![ng, bt][0] == ng && seq![ng, bt][1] == bt);
                assert(fact(ng, cs));
            }
        }
        assert(under_guard(g, b) matches Some(t) ==> fact(t, cs));
    }
}

proof fn lemma_with_ensures_good(f: &Function, e: EncodedV, t: TableV, k: int)
    requires
        enc_good(e),
        sorted_ensures(t),
    ensures
        enc_good(with_ensures(f, e, t, k)),
        with_ensures(f, e, t, k).consts == e.consts,
    decreases k,
{
    if k > 0 {
        lemma_with_ensures_good(f, e, t, k - 1);
        let before = with_ensures(f, e, t, k - 1);
        let s = f.sites()[k - 1];
        if let Op::Call { dst, callee: crate::ir::Callee::Static(c), args } = f.op_at(s) {
            let callee = t.summary(c);
            let av = values_at(before, args@);
            let rv = results_of(f, before, dst);
            if let Some(d) = dst {
                lemma_results_good(f, before, d, f.sites().len() as int);
            }
            let g = before.guard(s.0 as int);
            lemma_call_facts_good(callee, g, av, rv, callee.ensures_.len() as int, before.consts);
        }
    }
}

// ---- Queries ----

/// What is asked of a good encoding is well formed.
pub proof fn lemma_reach_formed(e: EncodedV, block: int, extra: Seq<TermV>)
    requires
        enc_good(e),
        distinct(e.consts),
        facts(extra, e.consts),
    ensures
        well_formed(e.reach(block, extra)),
{
    let q = e.reach(block, extra);
    let cs = sorted_consts(e.consts);
    sorted_consts_sorts(e.consts);
    assert forall|i: int| 0 <= i < q.asserts.len() implies fact(#[trigger] q.asserts[i], cs) by {
        let t = q.asserts[i];
        let n = e.asserts.len() as int;
        let g = opt_seq(e.guard(block));
        if i < n {
            assert(t == e.asserts[i]);
        } else if i < n + g.len() {
            assert(t == g[i - n]);
            assert(fact(e.guards[block], e.consts));
        } else {
            assert(t == extra[i - n - g.len()]);
        }
        assert(fact(t, e.consts));
        lemma_over_more(t, e.consts, cs);
    }
    lemma_sorted_distinct(e.consts);
}

/// Sorting keeps names apart.
pub proof fn lemma_sorted_distinct(cs: Decls)
    requires
        distinct(cs),
    ensures
        distinct(sorted_consts(cs)),
    decreases cs.len(),
{
    if cs.len() > 0 {
        let front = cs.drop_last();
        let rest = sorted_consts(front);
        let c = cs.last();
        let at = crate::query::place(rest, c);
        let r = rest.insert(at, c);
        lemma_sorted_distinct(front);
        sorted_consts_sorts(front);
        crate::query::lemma_place_sorted(rest, c);
        assert forall|i: int, j: int| 0 <= i < j < r.len() implies (#[trigger] r[i]).0 != (
        #[trigger] r[j]).0 by {
            let oi = if i < at { i } else { i - 1 };
            let oj = if j < at { j } else { j - 1 };
            if i == at || j == at {
                let o = if i == at { oj } else { oi };
                assert(rest.contains(rest[o]));
                assert(front.contains(rest[o]));
                let k = choose|k: int| 0 <= k < front.len() && front[k] == rest[o];
                assert(cs[k] == rest[o]);
                assert(cs[k].0 != cs[cs.len() - 1].0);
            } else {
                assert(r[i] == rest[oi] && r[j] == rest[oj]);
            }
        }
    }
}

/// The encoding of a function is good, and declares what its body asks for.
pub proof fn lemma_encoding_good(p: &Program, f: FuncId)
    requires
        p.body(f) matches Some(body) ==> body.params@.len() <= u32::MAX,
    ensures
        encoding(p, f) matches Ok(e) ==> enc_good(e) && distinct(e.consts) && e.consts
            == encoded_decls(p, &p.body(f).unwrap()).consts,
{
    if let Some(body) = p.body(f) {
        lemma_encoded_good(p, &body);
        lemma_decls_distinct(p, &body);
    }
}

/// The same with what callees guarantee, where that is well sorted.
pub proof fn lemma_encoding_with_good(p: &Program, f: FuncId, t: TableV)
    requires
        p.body(f) matches Some(body) ==> body.params@.len() <= u32::MAX,
        sorted_ensures(t),
    ensures
        encoding_with(p, f, t) matches Ok(e) ==> enc_good(e) && distinct(e.consts) && e.consts
            == encoded_decls(p, &p.body(f).unwrap()).consts,
{
    if let Some(body) = p.body(f) {
        lemma_encoded_good(p, &body);
        lemma_decls_distinct(p, &body);
        lemma_with_ensures_good(&body, encoded(p, &body), t, body.sites().len() as int);
    }
}

/// Declared names begin with one of four letters.
pub proof fn lemma_declared_letters(p: &Program, f: &Function, i: int)
    requires
        f.params@.len() <= u32::MAX,
        0 <= i < encoded_decls(p, f).consts.len(),
    ensures
        ({
            let c = encoded_decls(p, f).consts[i].0;
            c.len() > 0 && (c[0] == 'g' || c[0] == 'h' || c[0] == 'p' || c[0] == 'v')
        }),
{
    let e0 = encoded_start(f);
    let e1 = declared_all(p, f, e0, f.params@, f.params@.len() as int);
    let e2 = declared_sites(p, f, e1, f.sites().len() as int);
    lemma_start_names(f);
    lemma_declared_all_names(p, f, e0, f.params@, f.params@.len() as int);
    lemma_declared_sites_names(p, f, e1, f.sites().len() as int);
    lemma_conds_names(f, e2, f.blocks@.len() as int);
    let c = encoded_decls(p, f).consts[i].0;
    if known_name(f, e2, c) {
        if !(c.len() > 0 && c[0] == 'g') {
            let u = choose|u: ValueId| #[trigger]
                e2.values.contains_key(u) && c == value_name_of(f, u);
            lemma_first_chars(f, 0, u);
        }
    } else {
        let b = choose|b: int|
            0 <= b < f.blocks@.len() && encoded_decls(p, f).consts[i].0 == #[trigger] havoc_name_of(b);
        lemma_first_chars(f, b, ValueId(0));
    }
}

/// A solver can read what is asked of an encoding: its own assertions and guards are boolean,
/// well sorted and over declared constants, so whatever facts over the same constants are
/// added, the query is well formed.
pub proof fn encodings_ask_well_formed_queries(
    p: &Program,
    f: FuncId,
    block: int,
    extra: Seq<TermV>,
)
    requires
        p.body(f) matches Some(body) ==> body.params@.len() <= u32::MAX,
        encoding(p, f) matches Ok(e) ==> facts(extra, e.consts),
    ensures
        encoding(p, f) matches Ok(e) ==> well_formed(e.reach(block, extra)),
{
    lemma_encoding_good(p, f);
    if let Ok(e) = encoding(p, f) {
        lemma_reach_formed(e, block, extra);
    }
}

/// The same with what callees guarantee, where that is well sorted.
pub proof fn encodings_with_ensures_ask_well_formed_queries(
    p: &Program,
    f: FuncId,
    t: TableV,
    block: int,
    extra: Seq<TermV>,
)
    requires
        p.body(f) matches Some(body) ==> body.params@.len() <= u32::MAX,
        sorted_ensures(t),
        encoding_with(p, f, t) matches Ok(e) ==> facts(extra, e.consts),
    ensures
        encoding_with(p, f, t) matches Ok(e) ==> well_formed(e.reach(block, extra)),
{
    lemma_encoding_with_good(p, f, t);
    if let Ok(e) = encoding_with(p, f, t) {
        lemma_reach_formed(e, block, extra);
    }
}

} // verus!
