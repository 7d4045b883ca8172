//! The defining equalities of modelled operations.

use vstd::prelude::*;
use crate::encode::{edge_guard, edge_guard_of, EncodedFunc, EncodedV};
use crate::graph::{contains_id, lists};
use crate::ir::{
    same_text, BinOpKind, Callee, Function, MakeKind, Op, Program, Site, UnOpKind, ValueId,
};
use crate::term::{
    lit_limit, mk_bin, mk_compare, mk_cap, mk_eq, mk_is_nil, mk_ite, mk_len, mk_not, mk_seq,
    opt_term, ptr_is_nil, BvBinOp, BvCmpOp, Term, TermV,
};
use crate::types::{
    array_len, array_len_of, int_repr, int_repr_of, int_widths, is_basic, is_basic_type,
};

verus! {

/// All ones at width `w`.
pub open spec fn ones(w: u32) -> u128 {
    (lit_limit(w) - 1) as u128
}

/// All ones at width `w`.
pub fn all_ones(w: u32) -> (r: u128)
    requires
        w == 8 || w == 16 || w == 32 || w == 64,
    ensures
        r == ones(w),
{
    if w == 8 {
        0xff
    } else if w == 16 {
        0xffff
    } else if w == 32 {
        0xffff_ffff
    } else {
        0xffff_ffff_ffff_ffff
    }
}

/// The bitvector operation of an arithmetic operator on integers of this signedness.
pub open spec fn bv_op_of(kind: BinOpKind, signed: bool) -> Option<BvBinOp> {
    match kind {
        BinOpKind::Add => Some(BvBinOp::Add),
        BinOpKind::Sub => Some(BvBinOp::Sub),
        BinOpKind::Mul => Some(BvBinOp::Mul),
        BinOpKind::And => Some(BvBinOp::And),
        BinOpKind::Or => Some(BvBinOp::Or),
        BinOpKind::Xor => Some(BvBinOp::Xor),
        BinOpKind::Shl => Some(BvBinOp::Shl),
        BinOpKind::Shr => Some(if signed { BvBinOp::Ashr } else { BvBinOp::Lshr }),
        BinOpKind::Div => Some(if signed { BvBinOp::Sdiv } else { BvBinOp::Udiv }),
        BinOpKind::Rem => Some(if signed { BvBinOp::Srem } else { BvBinOp::Urem }),
        _ => None,
    }
}

fn bv_op(kind: BinOpKind, signed: bool) -> (r: Option<BvBinOp>)
    ensures
        r == bv_op_of(kind, signed),
{
    match kind {
        BinOpKind::Add => Some(BvBinOp::Add),
        BinOpKind::Sub => Some(BvBinOp::Sub),
        BinOpKind::Mul => Some(BvBinOp::Mul),
        BinOpKind::And => Some(BvBinOp::And),
        BinOpKind::Or => Some(BvBinOp::Or),
        BinOpKind::Xor => Some(BvBinOp::Xor),
        BinOpKind::Shl => Some(BvBinOp::Shl),
        BinOpKind::Shr => Some(if signed { BvBinOp::Ashr } else { BvBinOp::Lshr }),
        BinOpKind::Div => Some(if signed { BvBinOp::Sdiv } else { BvBinOp::Udiv }),
        BinOpKind::Rem => Some(if signed { BvBinOp::Srem } else { BvBinOp::Urem }),
        _ => None,
    }
}

/// The "less than" of integers of this signedness.
pub open spec fn lt_of(signed: bool) -> BvCmpOp {
    if signed { BvCmpOp::Slt } else { BvCmpOp::Ult }
}

/// The "at most" of integers of this signedness.
pub open spec fn le_of(signed: bool) -> BvCmpOp {
    if signed { BvCmpOp::Sle } else { BvCmpOp::Ule }
}

/// The term of `l kind r`. Equality is there for every sort; everything else is on integers,
/// and the type of the left operand says how wide they are and whether they are signed.
pub open spec fn binop_of(
    p: &Program,
    f: &Function,
    kind: BinOpKind,
    lhs: ValueId,
    l: TermV,
    r: TermV,
) -> Option<TermV> {
    match kind {
        BinOpKind::Eq => mk_eq(l, r),
        BinOpKind::Neq => match mk_eq(l, r) {
            Some(t) => mk_not(t),
            None => None,
        },
        _ => match int_repr_of(&p.types, f.type_of(lhs)) {
            None => None,
            Some((w, signed)) => match kind {
                // x &^ y is x & ~y
                BinOpKind::AndNot => match mk_bin(BvBinOp::Xor, r, TermV::BvLit(w, ones(w))) {
                    Some(n) => mk_bin(BvBinOp::And, l, n),
                    None => None,
                },
                BinOpKind::Lt => mk_compare(lt_of(signed), l, r),
                BinOpKind::Leq => mk_compare(le_of(signed), l, r),
                // x > y is y < x
                BinOpKind::Gt => mk_compare(lt_of(signed), r, l),
                BinOpKind::Geq => mk_compare(le_of(signed), r, l),
                _ => match bv_op_of(kind, signed) {
                    Some(o) => mk_bin(o, l, r),
                    None => None,
                },
            },
        },
    }
}

fn binop_term(p: &Program, f: &Function, kind: BinOpKind, lhs: ValueId, l: Term, r: Term) -> (res: Option<
    Term,
>)
    ensures
        opt_term(res) == binop_of(p, f, kind, lhs, l@, r@),
{
    match kind {
        BinOpKind::Eq => {
            return Term::eq(l, r);
        },
        BinOpKind::Neq => {
            return match Term::eq(l, r) {
                Some(t) => Term::not(t),
                None => None,
            };
        },
        _ => {},
    }
    let (w, signed) = match int_repr(&p.types, f.value_type(lhs)) {
        Some(x) => x,
        None => {
            return None;
        },
    };
    proof {
        int_widths(&p.types, f.type_of(lhs));
    }
    let lt = if signed { BvCmpOp::Slt } else { BvCmpOp::Ult };
    let le = if signed { BvCmpOp::Sle } else { BvCmpOp::Ule };
    match kind {
        BinOpKind::AndNot => match Term::bv_bin(BvBinOp::Xor, r, Term::bv_lit(w, all_ones(w))) {
            Some(n) => Term::bv_bin(BvBinOp::And, l, n),
            None => None,
        },
        BinOpKind::Lt => Term::bv_compare(lt, l, r),
        BinOpKind::Leq => Term::bv_compare(le, l, r),
        BinOpKind::Gt => Term::bv_compare(lt, r, l),
        BinOpKind::Geq => Term::bv_compare(le, r, l),
        _ => match bv_op(kind, signed) {
            Some(o) => Term::bv_bin(o, l, r),
            None => None,
        },
    }
}

/// The term of a unary operation.
pub open spec fn unop_of(p: &Program, f: &Function, kind: UnOpKind, operand: ValueId, o: TermV) -> Option<TermV> {
    match kind {
        UnOpKind::Not => mk_not(o),
        UnOpKind::Neg => match int_repr_of(&p.types, f.type_of(operand)) {
            Some((w, s)) => mk_bin(BvBinOp::Sub, TermV::BvLit(w, 0), o),
            None => None,
        },
        UnOpKind::BitNot => match int_repr_of(&p.types, f.type_of(operand)) {
            Some((w, s)) => mk_bin(BvBinOp::Xor, o, TermV::BvLit(w, ones(w))),
            None => None,
        },
    }
}

fn unop_term(p: &Program, f: &Function, kind: UnOpKind, operand: ValueId, o: Term) -> (r: Option<Term>)
    ensures
        opt_term(r) == unop_of(p, f, kind, operand, o@),
{
    proof {
        int_widths(&p.types, f.type_of(operand));
    }
    match kind {
        UnOpKind::Not => Term::not(o),
        UnOpKind::Neg => match int_repr(&p.types, f.value_type(operand)) {
            Some((w, _)) => Term::bv_bin(BvBinOp::Sub, Term::bv_lit(w, 0), o),
            None => None,
        },
        UnOpKind::BitNot => match int_repr(&p.types, f.value_type(operand)) {
            Some((w, _)) => Term::bv_bin(BvBinOp::Xor, o, Term::bv_lit(w, all_ones(w))),
            None => None,
        },
    }
}

/// `d = t`, where both are there and their sorts agree.
pub open spec fn define(d: Option<TermV>, t: Option<TermV>) -> Option<TermV> {
    match (d, t) {
        (Some(d), Some(t)) => mk_eq(d, t),
        _ => None,
    }
}

fn define_term(d: Option<Term>, t: Option<Term>) -> (r: Option<Term>)
    ensures
        opt_term(r) == define(opt_term(d), opt_term(t)),
{
    match (d, t) {
        (Some(d), Some(t)) => Term::eq(d, t),
        _ => None,
    }
}

/// An incoming value of a phi with the guard of its edge.
pub struct PhiEdge {
    pub guard: Term,
    pub value: Term,
}

/// The incoming values among the first `n` of a phi that come by a kept edge, each with the
/// guard of its edge. `None` where one of them is not modelled.
pub open spec fn phi_kept(
    f: &Function,
    e: EncodedV,
    block: int,
    edges: Seq<ValueId>,
    n: int,
) -> Option<Seq<(TermV, TermV)>>
    decreases n,
{
    if n <= 0 {
        Some(Seq::empty())
    } else {
        match phi_kept(f, e, block, edges, n - 1) {
            None => None,
            Some(before) => {
                let preds = f.blocks@[block].preds@;
                let i = n - 1;
                if i >= preds.len() || preds[i] >= f.blocks@.len() || preds[i] >= e.dag.len() {
                    None
                } else if !lists(e.dag[preds[i] as int], block) {
                    Some(before)
                } else {
                    match (edge_guard_of(f, e, preds[i] as int, block), e.value(edges[i])) {
                        (Some(g), Some(v)) => Some(before.push((g, v))),
                        _ => None,
                    }
                }
            },
        }
    }
}

/// The conditional that picks the first kept value whose guard holds; the last needs no test.
pub open spec fn phi_pick(kept: Seq<(TermV, TermV)>) -> Option<TermV>
    decreases kept.len(),
{
    if kept.len() == 0 {
        None
    } else if kept.len() == 1 {
        Some(kept[0].1)
    } else {
        match phi_pick(kept.drop_first()) {
            Some(rest) => mk_ite(kept[0].0, kept[0].1, rest),
            None => None,
        }
    }
}

/// The value of a phi.
pub open spec fn phi_of(f: &Function, e: EncodedV, block: int, edges: Seq<ValueId>) -> Option<TermV> {
    if block >= f.blocks@.len() {
        None
    } else {
        match phi_kept(f, e, block, edges, edges.len() as int) {
            Some(kept) => phi_pick(kept),
            None => None,
        }
    }
}

/// The models of phi edges.
pub open spec fn phi_edges(v: Seq<PhiEdge>) -> Seq<(TermV, TermV)> {
    Seq::new(v.len(), |i: int| (v[i].guard@, v[i].value@))
}

fn phi_term(f: &Function, enc: &EncodedFunc, block: usize, edges: &Vec<ValueId>) -> (r: Option<Term>)
    requires
        enc.wf(),
    ensures
        opt_term(r) == phi_of(f, enc@, block as int, edges@),
{
    if block >= f.blocks.len() {
        return None;
    }
    let ghost e = enc@;
    let preds = &f.blocks[block].preds;
    let mut kept: Vec<PhiEdge> = Vec::new();
    let mut i: usize = 0;
    assert(phi_edges(kept@) =~= Seq::<(TermV, TermV)>::empty());
    while i < edges.len()
        invariant
            i <= edges@.len(),
            block < f.blocks@.len(),
            preds == &f.blocks@[block as int].preds,
            enc.wf(),
            e == enc@,
            phi_kept(f, e, block as int, edges@, i as int) == Some(phi_edges(kept@)),
            phi_kept(f, e, block as int, edges@, i as int) is None ==> phi_kept(
                f,
                e,
                block as int,
                edges@,
                edges@.len() as int,
            ) is None,
        decreases edges@.len() - i,
    {
        proof {
            if phi_kept(f, e, block as int, edges@, i as int + 1) is None {
                lemma_phi_none(f, e, block as int, edges@, i as int + 1, edges@.len() as int);
            }
        }
        if i >= preds.len() {
            return None;
        }
        let pr = preds[i] as usize;
        if pr >= f.blocks.len() || pr >= enc.dag_succs.len() {
            return None;
        }
        assert(e.dag[pr as int] == enc.dag_succs@[pr as int]@);
        if contains_id(&enc.dag_succs[pr], block) {
            match (edge_guard(f, enc, pr, block), enc.value_term(edges[i])) {
                (Some(guard), Some(value)) => {
                    let ghost before = kept@;
                    kept.push(PhiEdge { guard, value });
                    assert(phi_edges(kept@) =~= phi_edges(before).push((guard@, value@)));
                },
                _ => {
                    return None;
                },
            }
        }
        i += 1;
    }
    let ghost all = phi_edges(kept@);
    let last = match kept.pop() {
        Some(l) => l,
        None => {
            return None;
        },
    };
    let mut acc = last.value;
    proof {
        let m = all.len() as int - 1;
        assert(all.skip(m) =~= seq![all[m]]);
        assert(phi_pick(all.skip(m)) == Some(acc@));
    }
    while kept.len() > 0
        invariant
            kept@.len() < all.len(),
            forall|j: int|
                0 <= j < kept@.len() ==> all[j] == ((#[trigger] kept@[j]).guard@, kept@[j].value@),
            phi_pick(all.skip(kept@.len() as int)) == Some(acc@),
            phi_of(f, e, block as int, edges@) == phi_pick(all),
            e == enc@,
        decreases kept@.len(),
    {
        let ghost n = kept@.len() as int;
        let ghost k0 = kept@;
        let edge = kept.pop().unwrap();
        proof {
            assert(edge == k0[n - 1]);
            let s = all.skip(n - 1);
            assert(s[0] == all[n - 1]);
            assert(s.drop_first() =~= all.skip(n));
        }
        match Term::ite(edge.guard, edge.value, acc) {
            Some(t) => {
                acc = t;
            },
            None => {
                proof {
                    lemma_pick_none(all, n - 1);
                }
                return None;
            },
        }
    }
    assert(all.skip(0) =~= all);
    Some(acc)
}

proof fn lemma_phi_none(f: &Function, e: EncodedV, block: int, edges: Seq<ValueId>, i: int, n: int)
    requires
        0 <= i <= n,
        phi_kept(f, e, block, edges, i) is None,
    ensures
        phi_kept(f, e, block, edges, n) is None,
    decreases n - i,
{
    if i < n {
        assert(phi_kept(f, e, block, edges, i + 1) is None);
        lemma_phi_none(f, e, block, edges, i + 1, n);
    }
}

proof fn lemma_pick_none(all: Seq<(TermV, TermV)>, i: int)
    requires
        0 <= i < all.len(),
        phi_pick(all.skip(i)) is None,
    ensures
        phi_pick(all) is None,
    decreases i,
{
    if i == 0 {
        assert(all.skip(0) =~= all);
    } else {
        let s = all.skip(i - 1);
        assert(s.drop_first() =~= all.skip(i));
        assert(phi_pick(s) is None);
        lemma_pick_none(all, i - 1);
    }
}

/// Length and capacity of what is sliced: an array's length, or those of a slice value.
pub open spec fn base_bounds(p: &Program, f: &Function, e: EncodedV, base: ValueId) -> Option<(TermV, TermV)> {
    match array_len_of(&p.types, f.type_of(base)) {
        Some(n) => Some((TermV::BvLit(64, n as u128), TermV::BvLit(64, n as u128))),
        None => match e.value(base) {
            Some(b) => match (mk_len(b), mk_cap(b)) {
                (Some(l), Some(c)) => Some((l, c)),
                _ => None,
            },
            None => None,
        },
    }
}

/// The term of `v`, or `default` where there is no such operand. `None` is an operand that is
/// not modelled.
pub open spec fn operand_or(e: EncodedV, v: Option<ValueId>, default: TermV) -> Option<TermV> {
    match v {
        Some(x) => e.value(x),
        None => Some(default),
    }
}

/// The value of `base[low:high:max]`: its length is `high - low` and its capacity
/// `max - low`, with the base's own bounds for what is left out.
pub open spec fn slice_of(
    p: &Program,
    f: &Function,
    e: EncodedV,
    base: ValueId,
    low: Option<ValueId>,
    high: Option<ValueId>,
    max: Option<ValueId>,
) -> Option<TermV> {
    match base_bounds(p, f, e, base) {
        None => None,
        Some((len, cap)) => match (
            operand_or(e, low, TermV::BvLit(64, 0)),
            operand_or(e, high, len),
            operand_or(e, max, cap),
        ) {
            (Some(l), Some(h), Some(m)) => match (
                mk_bin(BvBinOp::Sub, h, l),
                mk_bin(BvBinOp::Sub, m, l),
            ) {
                (Some(new_len), Some(new_cap)) => mk_seq(new_len, new_cap),
                _ => None,
            },
            _ => None,
        },
    }
}

fn operand_term(enc: &EncodedFunc, v: Option<ValueId>, default: Term) -> (r: Option<Term>)
    requires
        enc.wf(),
    ensures
        opt_term(r) == operand_or(enc@, v, default@),
{
    match v {
        Some(x) => enc.value_term(x),
        None => Some(default),
    }
}

fn slice_term(
    p: &Program,
    f: &Function,
    enc: &EncodedFunc,
    base: ValueId,
    low: Option<ValueId>,
    high: Option<ValueId>,
    max: Option<ValueId>,
) -> (r: Option<Term>)
    requires
        enc.wf(),
    ensures
        opt_term(r) == slice_of(p, f, enc@, base, low, high, max),
{
    let (len, cap) = match array_len(&p.types, f.value_type(base)) {
        Some(n) => (Term::bv_lit(64, n as u128), Term::bv_lit(64, n as u128)),
        None => match (enc.value_term(base), enc.value_term(base)) {
            (Some(a), Some(b)) => match (Term::seq_len(a), Term::seq_cap(b)) {
                (Some(l), Some(c)) => (l, c),
                _ => {
                    return None;
                },
            },
            _ => {
                return None;
            },
        },
    };
    match (
        operand_term(enc, low, Term::bv_lit(64, 0)),
        operand_term(enc, high, len),
        operand_term(enc, max, cap),
    ) {
        (Some(l), Some(h), Some(m)) => match (
            Term::bv_bin(BvBinOp::Sub, h, l.dup()),
            Term::bv_bin(BvBinOp::Sub, m, l),
        ) {
            (Some(new_len), Some(new_cap)) => Term::seq_val(new_len, new_cap),
            _ => None,
        },
        _ => None,
    }
}

/// Whether the values in `visited` and the search from `v` at this depth find that `v` comes
/// from `uintptr` arithmetic, and the values visited then. `v` does if it has type `uintptr`,
/// or has type `unsafe.Pointer` and is converted from such a value. The search goes eight
/// conversions deep and looks at each value once.
pub open spec fn uintptr_from(
    p: &Program,
    f: &Function,
    v: ValueId,
    depth: int,
    visited: Set<ValueId>,
) -> (bool, Set<ValueId>)
    decreases 9 - depth, 1int, 0int,
{
    if depth > 8 || visited.contains(v) {
        (false, visited)
    } else {
        let now = visited.insert(v);
        if is_basic(&p.types, f.type_of(v), "uintptr"@) {
            (true, now)
        } else if is_basic(&p.types, f.type_of(v), "Pointer"@) {
            uintptr_scan(p, f, v, depth, now, 0)
        } else {
            (false, now)
        }
    }
}

/// The search through the conversions to `v` from instruction `k` on.
pub open spec fn uintptr_scan(
    p: &Program,
    f: &Function,
    v: ValueId,
    depth: int,
    visited: Set<ValueId>,
    k: int,
) -> (bool, Set<ValueId>)
    decreases 9 - depth, 0int, f.sites().len() - k,
{
    if depth > 8 || k < 0 || k >= f.sites().len() {
        (false, visited)
    } else {
        match f.op_at(f.sites()[k]) {
            Op::Convert { dst, src } => if dst == v {
                let found = uintptr_from(p, f, src, depth + 1, visited);
                if found.0 {
                    found
                } else {
                    uintptr_scan(p, f, v, depth, found.1, k + 1)
                }
            } else {
                uintptr_scan(p, f, v, depth, visited, k + 1)
            },
            _ => uintptr_scan(p, f, v, depth, visited, k + 1),
        }
    }
}

fn has_value(v: &Vec<ValueId>, x: ValueId) -> (r: bool)
    ensures
        r == v@.to_set().contains(x),
{
    let mut i: usize = 0;
    while i < v.len()
        invariant
            i <= v@.len(),
            forall|j: int| 0 <= j < i ==> v@[j] != x,
        decreases v@.len() - i,
    {
        if v[i] == x {
            assert(v@.contains(x));
            return true;
        }
        i += 1;
    }
    false
}

fn uintptr_provenance(
    p: &Program,
    f: &Function,
    sites: &Vec<Site>,
    v: ValueId,
    depth: u32,
    visited: &mut Vec<ValueId>,
) -> (r: bool)
    requires
        depth <= 9,
        sites@ == f.sites(),
        forall|k: int| 0 <= k < sites@.len() ==> f.has_site(#[trigger] sites@[k]),
    ensures
        (r, final(visited)@.to_set()) == uintptr_from(p, f, v, depth as int, old(visited)@.to_set()),
    decreases 9 - depth,
{
    if depth > 8 || has_value(visited, v) {
        return false;
    }
    let ghost before = visited@;
    visited.push(v);
    proof {
        assert(visited@.to_set() =~= before.to_set().insert(v)) by {
            assert forall|x: ValueId| visited@.to_set().contains(x) == before.to_set().insert(v).contains(x) by {
                if before.contains(x) {
                    let i = choose|i: int| 0 <= i < before.len() && before[i] == x;
                    assert(visited@[i] == x);
                }
                if x == v {
                    assert(visited@[before.len() as int] == x);
                }
                if visited@.contains(x) && x != v {
                    let i = choose|i: int| 0 <= i < visited@.len() && visited@[i] == x;
                    assert(before[i] == x);
                }
            }
        }
    }
    if is_basic_type(&p.types, f.value_type(v), "uintptr") {
        return true;
    }
    if !is_basic_type(&p.types, f.value_type(v), "Pointer") {
        return false;
    }
    let mut k: usize = 0;
    let ghost start = visited@.to_set();
    while k < sites.len()
        invariant
            k <= sites@.len(),
            depth <= 8,
            sites@ == f.sites(),
            forall|k: int| 0 <= k < sites@.len() ==> f.has_site(#[trigger] sites@[k]),
            uintptr_scan(p, f, v, depth as int, start, 0) == uintptr_scan(
                p,
                f,
                v,
                depth as int,
                visited@.to_set(),
                k as int,
            ),
            uintptr_from(p, f, v, depth as int, old(visited)@.to_set()) == uintptr_scan(
                p,
                f,
                v,
                depth as int,
                start,
                0,
            ),
        decreases sites@.len() - k,
    {
        if let Op::Convert { dst, src } = f.op(sites[k]) {
            if *dst == v {
                if uintptr_provenance(p, f, sites, *src, depth + 1, visited) {
                    return true;
                }
            }
        }
        k += 1;
    }
    false
}

/// Whether `v` comes from `uintptr` arithmetic.
pub open spec fn from_uintptr(p: &Program, f: &Function, v: ValueId) -> bool {
    uintptr_from(p, f, v, 0, Set::empty()).0
}

/// That the pointer `d` is not nil.
pub open spec fn not_nil_of(d: Option<TermV>) -> Option<TermV> {
    match d {
        Some(t) => match mk_is_nil(t) {
            Some(n) => mk_not(n),
            None => None,
        },
        None => None,
    }
}

fn not_nil(d: Option<Term>) -> (r: Option<Term>)
    ensures
        opt_term(r) == not_nil_of(opt_term(d)),
{
    match d {
        Some(t) => match ptr_is_nil(t) {
            Some(n) => Term::not(n),
            None => None,
        },
        None => None,
    }
}

/// The slice value that `make` gives: the capacity is the length where it is left out or not
/// modelled.
pub open spec fn make_of(e: EncodedV, args: Seq<ValueId>) -> Option<TermV> {
    if args.len() == 0 {
        None
    } else {
        match e.value(args[0]) {
            None => None,
            Some(len) => {
                let cap = if args.len() > 1 {
                    match e.value(args[1]) {
                        Some(c) => c,
                        None => len,
                    }
                } else {
                    len
                };
                mk_seq(len, cap)
            },
        }
    }
}

fn make_term(enc: &EncodedFunc, args: &Vec<ValueId>) -> (r: Option<Term>)
    requires
        enc.wf(),
    ensures
        opt_term(r) == make_of(enc@, args@),
{
    if args.len() == 0 {
        return None;
    }
    match enc.value_term(args[0]) {
        None => None,
        Some(len) => {
            let cap = if args.len() > 1 {
                match enc.value_term(args[1]) {
                    Some(c) => c,
                    None => len.dup(),
                }
            } else {
                len.dup()
            };
            Term::seq_val(len, cap)
        },
    }
}

/// The length of the first argument.
pub open spec fn len_call_of(e: EncodedV, args: Seq<ValueId>) -> Option<TermV> {
    if args.len() == 0 {
        None
    } else {
        match e.value(args[0]) {
            Some(a) => mk_len(a),
            None => None,
        }
    }
}

/// What is asserted of an operation in block `block`: the equality that defines its result,
/// where the operation and all that it needs are modelled. Taking an address, allocating, and
/// converting from `uintptr` never give nil.
pub open spec fn op_def_of(p: &Program, f: &Function, e: EncodedV, block: int, op: Op) -> Option<TermV> {
    match op {
        Op::Assign { dst, src } => define(e.value(dst), e.value(src)),
        Op::BinOp { dst, kind, lhs, rhs } => match (e.value(lhs), e.value(rhs)) {
            (Some(l), Some(r)) => define(e.value(dst), binop_of(p, f, kind, lhs, l, r)),
            _ => None,
        },
        Op::UnOp { dst, kind, operand } => match e.value(operand) {
            Some(o) => define(e.value(dst), unop_of(p, f, kind, operand, o)),
            None => None,
        },
        Op::Phi { dst, edges } => define(e.value(dst), phi_of(f, e, block, edges@)),
        Op::Make { dst, kind, args } => if kind == MakeKind::Slice {
            define(e.value(dst), make_of(e, args@))
        } else {
            None
        },
        Op::Slice { dst, base, low, high, max } => define(
            e.value(dst),
            slice_of(p, f, e, base, low, high, max),
        ),
        Op::Call { dst: Some(d), callee: Callee::Builtin(name), args } => if name@ == "len"@ {
            define(e.value(d), len_call_of(e, args@))
        } else {
            None
        },
        Op::Convert { dst, src } => if from_uintptr(p, f, src) {
            not_nil_of(e.value(dst))
        } else {
            None
        },
        Op::Alloc { dst, .. } => not_nil_of(e.value(dst)),
        Op::FieldAddr { dst, .. } => not_nil_of(e.value(dst)),
        Op::IndexAddr { dst, .. } => not_nil_of(e.value(dst)),
        _ => None,
    }
}

/// What is asserted of an operation.
pub fn op_def(p: &Program, f: &Function, sites: &Vec<Site>, block: usize, op: &Op, enc: &EncodedFunc) -> (r: Option<
    Term,
>)
    requires
        enc.wf(),
        sites@ == f.sites(),
        forall|k: int| 0 <= k < sites@.len() ==> f.has_site(#[trigger] sites@[k]),
    ensures
        opt_term(r) == op_def_of(p, f, enc@, block as int, *op),
{
    match op {
        Op::Assign { dst, src } => define_term(enc.value_term(*dst), enc.value_term(*src)),
        Op::BinOp { dst, kind, lhs, rhs } => match (enc.value_term(*lhs), enc.value_term(*rhs)) {
            (Some(l), Some(r)) => define_term(
                enc.value_term(*dst),
                binop_term(p, f, *kind, *lhs, l, r),
            ),
            _ => None,
        },
        Op::UnOp { dst, kind, operand } => match enc.value_term(*operand) {
            Some(o) => define_term(enc.value_term(*dst), unop_term(p, f, *kind, *operand, o)),
            None => None,
        },
        Op::Phi { dst, edges } => define_term(
            enc.value_term(*dst),
            phi_term(f, enc, block, edges),
        ),
        Op::Make { dst, kind: MakeKind::Slice, args } => define_term(
            enc.value_term(*dst),
            make_term(enc, args),
        ),
        Op::Slice { dst, base, low, high, max } => define_term(
            enc.value_term(*dst),
            slice_term(p, f, enc, *base, *low, *high, *max),
        ),
        Op::Call { dst: Some(d), callee: Callee::Builtin(name), args } => {
            if same_text(name.as_str(), "len") && args.len() > 0 {
                let len = match enc.value_term(args[0]) {
                    Some(a) => Term::seq_len(a),
                    None => None,
                };
                define_term(enc.value_term(*d), len)
            } else {
                None
            }
        },
        Op::Convert { dst, src } => {
            let mut visited: Vec<ValueId> = Vec::new();
            assert(visited@.to_set() =~= Set::<ValueId>::empty());
            if uintptr_provenance(p, f, sites, *src, 0, &mut visited) {
                not_nil(enc.value_term(*dst))
            } else {
                None
            }
        },
        Op::Alloc { dst, .. } | Op::FieldAddr { dst, .. } | Op::IndexAddr { dst, .. } => not_nil(
            enc.value_term(*dst),
        ),
        _ => None,
    }
}

} // verus!
