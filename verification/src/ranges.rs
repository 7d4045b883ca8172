//! What the bounds checker looks for is what Go forbids: an index outside `0 <= i < len`, slice
//! bounds outside `0 <= low <= high <= cap`, a divisor of zero, and numbers that do not fit
//! their type. It looks wherever such an operation stands, and nowhere else.

use vstd::prelude::*;
use vstd::arithmetic::div_mod::{lemma_fundamental_div_mod, lemma_mod_bound, lemma_small_mod};
use vstd::arithmetic::power2::{lemma2_to64, lemma_pow2_pos};
use crate::arith::{integer, modelled, value_of};
use crate::bounds::{
    bound_or, bounds_at, bounds_upto, cap_term, convert_at, convert_upto, convert_violated,
    divrem_at, divrem_upto, fault_sites, greatest, index_violated, least, len_term, slice_violated,
    Fault, FaultSiteV,
};
use crate::encode::{opt_seq, EncodedV};
use crate::ir::{BinOpKind, Function, Op, Program, Site, ValueId};
use crate::term::{Sort, TermV};
use crate::types::{array_len_of, int_repr_of, int_widths, ints_are_bitvectors, sort_of_type};
use crate::values::{
    and_is_all, bits, env_fits, go_width, holds, literals_fill_the_width, number,
    number_is_congruent, or_is_some, quotient, size, value, value_fits, Env, Value,
};

verus! {

/// The integer that the bits of a 64-bit term stand for.
pub open spec fn int_of(t: TermV, env: Env) -> int {
    number(bits(value(t, env)), 64, true)
}

/// Whether `t` is a 64-bit integer.
pub open spec fn is_int(t: TermV) -> bool {
    t.well_sorted() && t.sort() == Sort::BitVec(64)
}

proof fn lemma_zero(env: Env)
    ensures
        value(TermV::BvLit(64, 0), env) == Value::Bits(0),
        number(0, 64, true) == 0,
{
    lemma_pow2_pos(64);
    lemma_small_mod(0, size(64) as nat);
}

/// An index is violated exactly where it is not one of `0 .. len`.
pub proof fn index_must_be_below_length(i: TermV, len: TermV, env: Env)
    requires
        is_int(i),
        is_int(len),
        env_fits(env),
    ensures
        index_violated(i, len) matches Some(v) && holds(v, env) == !(0 <= int_of(i, env) < int_of(
            len,
            env,
        )),
{
    reveal_with_fuel(value, 2);
    lemma_zero(env);
    let v = index_violated(i, len).unwrap();
    let parts = v->Or_0;
    or_is_some(parts, env);
    assert(parts.len() == 2);
    assert(holds(parts[0], env) == (int_of(i, env) < 0));
    assert(holds(parts[1], env) == (int_of(len, env) <= int_of(i, env)));
}

/// Slice bounds are violated exactly where `0 <= low <= high <= cap` fails, or a maximum lies
/// beyond the capacity.
pub proof fn slice_bounds_must_be_ordered(
    low: TermV,
    high: TermV,
    cap: TermV,
    max: Option<TermV>,
    env: Env,
)
    requires
        is_int(low),
        is_int(high),
        is_int(cap),
        max matches Some(m) ==> is_int(m),
        env_fits(env),
    ensures
        slice_violated(low, high, cap, max) matches Some(v) && holds(v, env) == !(0 <= int_of(
            low,
            env,
        ) <= int_of(high, env) <= int_of(cap, env) && (max matches Some(m) ==> int_of(m, env)
            <= int_of(cap, env))),
{
    reveal_with_fuel(value, 2);
    lemma_zero(env);
    let v = slice_violated(low, high, cap, max).unwrap();
    let parts = v->Or_0;
    or_is_some(parts, env);
    assert(holds(parts[0], env) == (int_of(low, env) < 0));
    assert(holds(parts[1], env) == (int_of(high, env) < int_of(low, env)));
    assert(holds(parts[2], env) == (int_of(cap, env) < int_of(high, env)));
    if let Some(m) = max {
        assert(parts.len() == 4);
        assert(holds(parts[3], env) == (int_of(cap, env) < int_of(m, env)));
    } else {
        assert(parts.len() == 3);
    }
}

/// Whether an integer type holds the number `x`.
pub open spec fn in_type(x: int, w: u32, signed: bool) -> bool {
    if signed {
        -size(w) <= 2 * x < size(w)
    } else {
        0 <= x < size(w)
    }
}

proof fn lemma_literal(w: u32, v: int, env: Env)
    requires
        0 <= v < size(w),
        go_width(w),
    ensures
        value(TermV::BvLit(w, v as u128), env) == Value::Bits(v as nat),
{
    lemma2_to64();
    lemma_small_mod(v as nat, size(w) as nat);
}

/// A conversion is violated exactly where the destination type does not hold the number.
pub proof fn conversion_must_fit(ws: u32, ss: bool, wd: u32, sd: bool, x: TermV, env: Env)
    requires
        go_width(ws),
        go_width(wd),
        wd < ws || (wd == ws && ss != sd),
        x.well_sorted(),
        x.sort() == Sort::BitVec(ws),
        env_fits(env),
    ensures
        convert_violated(ws, ss, wd, sd, x) matches Some(v) && holds(v, env) == !in_type(
            number(bits(value(x, env)), ws, ss),
            wd,
            sd,
        ),
{
    reveal_with_fuel(value, 2);
    lemma2_to64();
    literals_fill_the_width(ws);
    literals_fill_the_width(wd);
    value_fits(x, env);
    let n = bits(value(x, env));
    number_is_congruent(n, ws, ss);
    let top = if sd { size(wd) / 2 - 1 } else { size(wd) - 1 };
    let low = if sd { size(ws) - size(wd) / 2 } else { 0 };
    lemma_literal(ws, top, env);
    assert(greatest(ws, wd, sd) == TermV::BvLit(ws, top as u128));
    assert(least(ws, wd, sd) == TermV::BvLit(ws, low as u128));
    lemma_literal(ws, low, env);
    let v = convert_violated(ws, ss, wd, sd, x).unwrap();
    if ss && !(wd == ws && !sd) {
        let parts = v->Or_0;
        or_is_some(parts, env);
        assert(parts.len() == 2);
        assert(holds(parts[0], env) == (number(n, ws, true) < number(low as nat, ws, true)));
        assert(holds(parts[1], env) == (number(top as nat, ws, true) < number(n, ws, true)));
    }
}

// ---- Operations ----

/// Whether every modelled value has the sort of its type.
pub open spec fn typed(p: &Program, f: &Function, e: EncodedV) -> bool {
    forall|v: ValueId|
        (#[trigger] e.value(v)) matches Some(t) ==> t.well_sorted() && sort_of_type(
            &p.types,
            f.type_of(v),
        ) == Some(t.sort())
}

/// Whether the length and the capacity of `base` are known: it is an array, or a modelled slice.
pub open spec fn has_bounds(p: &Program, f: &Function, e: EncodedV, base: ValueId) -> bool {
    match array_len_of(&p.types, f.type_of(base)) {
        Some(n) => true,
        None => modelled(e, base, Sort::GoSeq),
    }
}

/// The length of `base`. No array has more elements than an `int` can count.
pub open spec fn go_len(p: &Program, f: &Function, e: EncodedV, base: ValueId, env: Env) -> int {
    match array_len_of(&p.types, f.type_of(base)) {
        Some(n) => number(n as nat, 64, true),
        None => match value_of(e, base, env) {
            Value::Slice(l, _) => number(l, 64, true),
            _ => 0,
        },
    }
}

/// The capacity of `base`.
pub open spec fn go_cap(p: &Program, f: &Function, e: EncodedV, base: ValueId, env: Env) -> int {
    match array_len_of(&p.types, f.type_of(base)) {
        Some(n) => number(n as nat, 64, true),
        None => match value_of(e, base, env) {
            Value::Slice(_, c) => number(c, 64, true),
            _ => 0,
        },
    }
}

/// The integer of an operand, or what stands for one that is left out.
pub open spec fn int_or(e: EncodedV, v: Option<ValueId>, other: int, env: Env) -> int {
    match v {
        Some(x) => integer(e, x, 64, true, env),
        None => other,
    }
}

/// Whether an operand is left out or a modelled `int`.
pub open spec fn int_or_none(e: EncodedV, v: Option<ValueId>) -> bool {
    v matches Some(x) ==> modelled(e, x, Sort::BitVec(64))
}

/// Whether what the operation needs for `fault` to be looked for is modelled.
pub open spec fn looks_for(p: &Program, f: &Function, e: EncodedV, op: Op, fault: Fault) -> bool {
    match (op, fault) {
        (Op::Index { base, index, .. }, Fault::Bounds) => modelled(e, index, Sort::BitVec(64))
            && has_bounds(p, f, e, base),
        (Op::IndexAddr { base, index, .. }, Fault::Bounds) => modelled(e, index, Sort::BitVec(64))
            && has_bounds(p, f, e, base),
        (Op::Slice { base, low, high, max, .. }, Fault::Bounds) => has_bounds(p, f, e, base)
            && int_or_none(e, low) && int_or_none(e, high) && int_or_none(e, max),
        (Op::BinOp { kind, lhs, rhs, .. }, Fault::DivZero) => (kind == BinOpKind::Div || kind
            == BinOpKind::Rem) && (int_repr_of(&p.types, f.type_of(lhs)) matches Some((w, s))
            && modelled(e, lhs, Sort::BitVec(w)) && modelled(e, rhs, Sort::BitVec(w))),
        (Op::BinOp { kind, lhs, rhs, .. }, Fault::Overflow) => kind == BinOpKind::Div && (
        int_repr_of(&p.types, f.type_of(lhs)) matches Some((w, s)) && s && modelled(
            e,
            lhs,
            Sort::BitVec(w),
        ) && modelled(e, rhs, Sort::BitVec(w))),
        (Op::Convert { dst, src }, Fault::Overflow) => match (
            int_repr_of(&p.types, f.type_of(src)),
            int_repr_of(&p.types, f.type_of(dst)),
        ) {
            (Some((ws, ss)), Some((wd, sd))) => (wd < ws || (wd == ws && ss != sd)) && modelled(
                e,
                src,
                Sort::BitVec(ws),
            ),
            _ => false,
        },
        _ => false,
    }
}

/// Whether the operation does what Go forbids.
pub open spec fn faulty(p: &Program, f: &Function, e: EncodedV, op: Op, fault: Fault, env: Env) -> bool {
    match (op, fault) {
        (Op::Index { base, index, .. }, Fault::Bounds) => !(0 <= integer(e, index, 64, true, env)
            < go_len(p, f, e, base, env)),
        (Op::IndexAddr { base, index, .. }, Fault::Bounds) => !(0 <= integer(e, index, 64, true, env)
            < go_len(p, f, e, base, env)),
        (Op::Slice { base, low, high, max, .. }, Fault::Bounds) => !(0 <= int_or(e, low, 0, env)
            <= int_or(e, high, go_len(p, f, e, base, env), env) <= go_cap(p, f, e, base, env)
            && int_or(e, max, go_cap(p, f, e, base, env), env) <= go_cap(p, f, e, base, env)),
        (Op::BinOp { lhs, rhs, .. }, Fault::DivZero) => {
            let (w, s) = int_repr_of(&p.types, f.type_of(lhs)).unwrap();
            integer(e, rhs, w, s, env) == 0
        },
        (Op::BinOp { lhs, rhs, .. }, Fault::Overflow) => {
            let (w, s) = int_repr_of(&p.types, f.type_of(lhs)).unwrap();
            let y = integer(e, rhs, w, s, env);
            y != 0 && !in_type(quotient(integer(e, lhs, w, s, env), y), w, s)
        },
        (Op::Convert { dst, src }, Fault::Overflow) => {
            let (ws, ss) = int_repr_of(&p.types, f.type_of(src)).unwrap();
            let (wd, sd) = int_repr_of(&p.types, f.type_of(dst)).unwrap();
            !in_type(integer(e, src, ws, ss, env), wd, sd)
        },
        _ => false,
    }
}

/// A signed quotient leaves its type only where the least number is divided by -1.
proof fn lemma_quotient_range(x: int, y: int, w: u32)
    requires
        go_width(w),
        in_type(x, w, true),
        in_type(y, w, true),
    ensures
        (y != 0 && !in_type(quotient(x, y), w, true)) == (2 * x == -size(w) && y == -1),
{
    lemma2_to64();
    if y != 0 {
        let ax = if x < 0 { -x } else { x };
        let ay = if y < 0 { -y } else { y };
        lemma_fundamental_div_mod(ax, ay);
        lemma_mod_bound(ax, ay);
        let q = ax / ay;
        assert(0 <= q <= ax && (ay >= 2 ==> 2 * q <= ax) && (ay == 1 ==> q == ax))
            by (nonlinear_arith)
            requires
                ax >= 0,
                ay > 0,
                ax == ay * q + ax % ay,
                0 <= ax % ay < ay,
        ;
    }
}

proof fn lemma_bound_terms(p: &Program, f: &Function, e: EncodedV, base: ValueId, env: Env)
    requires
        env_fits(env),
        has_bounds(p, f, e, base),
    ensures
        len_term(p, f, e, base) matches Some(t) && is_int(t) && int_of(t, env) == go_len(
            p,
            f,
            e,
            base,
            env,
        ),
        cap_term(p, f, e, base) matches Some(t) && is_int(t) && int_of(t, env) == go_cap(
            p,
            f,
            e,
            base,
            env,
        ),
{
    reveal_with_fuel(value, 2);
    lemma2_to64();
    match array_len_of(&p.types, f.type_of(base)) {
        Some(n) => {
            lemma_literal(64, n as int, env);
        },
        None => {
            value_fits(e.value(base).unwrap(), env);
        },
    }
}

/// Whether `xs` holds an entry of `fault` at `s`, and what it asks is whether it happens.
pub open spec fn asks_about(
    p: &Program,
    f: &Function,
    e: EncodedV,
    xs: Seq<FaultSiteV>,
    s: Site,
    fault: Fault,
    env: Env,
    j: int,
) -> bool {
    &&& 0 <= j < xs.len()
    &&& xs[j].site == s
    &&& xs[j].fault == fault
    &&& holds(xs[j].violation, env) == faulty(p, f, e, f.op_at(s), fault, env)
}

proof fn lemma_bounds_at(p: &Program, f: &Function, e: EncodedV, s: Site, env: Env)
    requires
        env_fits(env),
        typed(p, f, e),
    ensures
        match bounds_at(p, f, e, s) {
            Some(x) => x.site == s && x.fault == Fault::Bounds && looks_for(
                p,
                f,
                e,
                f.op_at(s),
                Fault::Bounds,
            ) && holds(x.violation, env) == faulty(p, f, e, f.op_at(s), Fault::Bounds, env),
            None => !looks_for(p, f, e, f.op_at(s), Fault::Bounds),
        },
{
    lemma_zero(env);
    match f.op_at(s) {
        Op::IndexAddr { base, index, .. } | Op::Index { base, index, .. } => {
            if has_bounds(p, f, e, base) {
                lemma_bound_terms(p, f, e, base, env);
                if modelled(e, index, Sort::BitVec(64)) {
                    index_must_be_below_length(
                        e.value(index).unwrap(),
                        len_term(p, f, e, base).unwrap(),
                        env,
                    );
                }
            }
        },
        Op::Slice { base, low, high, max, .. } => {
            if has_bounds(p, f, e, base) {
                lemma_bound_terms(p, f, e, base, env);
                let lo = bound_or(e, low, Some(TermV::BvLit(64, 0)));
                let hi = bound_or(e, high, len_term(p, f, e, base));
                let cap = cap_term(p, f, e, base).unwrap();
                let m = bound_or(e, max, None);
                if int_or_none(e, low) && int_or_none(e, high) && int_or_none(e, max) {
                    slice_bounds_must_be_ordered(lo.unwrap(), hi.unwrap(), cap, m, env);
                }
            }
        },
        _ => {},
    }
}

proof fn lemma_divrem_at(p: &Program, f: &Function, e: EncodedV, s: Site, env: Env)
    requires
        env_fits(env),
        typed(p, f, e),
    ensures
        ({
            let xs = divrem_at(p, f, e, s);
            let op = f.op_at(s);
            &&& forall|j: int|
                0 <= j < xs.len() ==> (#[trigger] xs[j]).site == s && op is BinOp && xs[j].fault
                    != Fault::Bounds && looks_for(p, f, e, op, xs[j].fault) && holds(
                    xs[j].violation,
                    env,
                ) == faulty(p, f, e, op, xs[j].fault, env)
            &&& op is BinOp && looks_for(p, f, e, op, Fault::DivZero) ==> asks_about(
                p,
                f,
                e,
                xs,
                s,
                Fault::DivZero,
                env,
                0,
            )
            &&& op is BinOp && looks_for(p, f, e, op, Fault::Overflow) ==> asks_about(
                p,
                f,
                e,
                xs,
                s,
                Fault::Overflow,
                env,
                1,
            )
        }),
{
    if let Op::BinOp { kind, lhs, rhs, .. } = f.op_at(s) {
        if kind == BinOpKind::Div || kind == BinOpKind::Rem {
            if let (Some((w, signed)), Some(l), Some(r)) = (
                int_repr_of(&p.types, f.type_of(lhs)),
                e.value(lhs),
                e.value(rhs),
            ) {
                reveal_with_fuel(value, 3);
                lemma2_to64();
                int_widths(&p.types, f.type_of(lhs));
                ints_are_bitvectors(&p.types, f.type_of(lhs));
                literals_fill_the_width(w);
                value_fits(l, env);
                value_fits(r, env);
                assert(l.sort() == Sort::BitVec(w));
                lemma_literal(w, 0, env);
                lemma_literal(w, size(w) / 2, env);
                lemma_literal(w, size(w) - 1, env);
                let xs = divrem_at(p, f, e, s);
                if r.sort() == Sort::BitVec(w) {
                    let (a, b) = (bits(value(l, env)), bits(value(r, env)));
                    number_is_congruent(a, w, signed);
                    number_is_congruent(b, w, signed);
                    let zero = xs[0];
                    assert(holds(zero.violation, env) == (b == 0));
                    if signed && kind == BinOpKind::Div {
                        lemma_quotient_range(number(a, w, true), number(b, w, true), w);
                        let v = xs[1].violation;
                        let parts = v->And_0;
                        and_is_all(parts, env);
                        assert(parts.len() == 2);
                        assert(holds(parts[0], env) == (a == size(w) / 2));
                        assert(holds(parts[1], env) == (b == size(w) - 1));
                    }
                } else {
                    assert(xs.len() == 0);
                }
            }
        }
    }
}

proof fn lemma_convert_at(p: &Program, f: &Function, e: EncodedV, s: Site, env: Env)
    requires
        env_fits(env),
        typed(p, f, e),
    ensures
        match convert_at(p, f, e, s) {
            Some(x) => x.site == s && x.fault == Fault::Overflow && f.op_at(s) is Convert && looks_for(
                p,
                f,
                e,
                f.op_at(s),
                Fault::Overflow,
            ) && holds(x.violation, env) == faulty(p, f, e, f.op_at(s), Fault::Overflow, env),
            None => f.op_at(s) is Convert ==> !looks_for(p, f, e, f.op_at(s), Fault::Overflow),
        },
{
    if let Op::Convert { dst, src } = f.op_at(s) {
        if let (Some((ws, ss)), Some((wd, sd)), Some(x)) = (
            int_repr_of(&p.types, f.type_of(src)),
            int_repr_of(&p.types, f.type_of(dst)),
            e.value(src),
        ) {
            int_widths(&p.types, f.type_of(src));
            int_widths(&p.types, f.type_of(dst));
            ints_are_bitvectors(&p.types, f.type_of(src));
            if wd < ws || (wd == ws && ss != sd) {
                conversion_must_fit(ws, ss, wd, sd, x, env);
            }
        }
    }
}

/// Whether each of `xs` asks whether an operation of `f` does what Go forbids.
pub open spec fn all_ask(
    p: &Program,
    f: &Function,
    e: EncodedV,
    xs: Seq<FaultSiteV>,
    env: Env,
) -> bool {
    forall|j: int|
        0 <= j < xs.len() ==> f.sites().contains((#[trigger] xs[j]).site) && looks_for(
            p,
            f,
            e,
            f.op_at(xs[j].site),
            xs[j].fault,
        ) && holds(xs[j].violation, env) == faulty(
            p,
            f,
            e,
            f.op_at(xs[j].site),
            xs[j].fault,
            env,
        )
}

proof fn lemma_all_ask(p: &Program, f: &Function, e: EncodedV, k: int, env: Env)
    requires
        env_fits(env),
        typed(p, f, e),
        k <= f.sites().len(),
    ensures
        all_ask(p, f, e, bounds_upto(p, f, e, k), env),
        all_ask(p, f, e, divrem_upto(p, f, e, k), env),
        all_ask(p, f, e, convert_upto(p, f, e, k), env),
    decreases k,
{
    if k > 0 {
        lemma_all_ask(p, f, e, k - 1, env);
        let s = f.sites()[k - 1];
        assert(f.sites().contains(s));
        lemma_bounds_at(p, f, e, s, env);
        lemma_divrem_at(p, f, e, s, env);
        lemma_convert_at(p, f, e, s, env);
        let b = divrem_upto(p, f, e, k - 1);
        let d = divrem_upto(p, f, e, k);
        assert forall|j: int| 0 <= j < d.len() implies f.sites().contains((#[trigger] d[j]).site)
            && looks_for(p, f, e, f.op_at(d[j].site), d[j].fault) && holds(d[j].violation, env)
            == faulty(p, f, e, f.op_at(d[j].site), d[j].fault, env) by {
            if j < b.len() {
                assert(d[j] == b[j]);
            } else {
                assert(d[j] == divrem_at(p, f, e, s)[j - b.len()]);
            }
        }
        let b = bounds_upto(p, f, e, k - 1);
        let d = bounds_upto(p, f, e, k);
        assert forall|j: int| 0 <= j < d.len() implies f.sites().contains((#[trigger] d[j]).site)
            && looks_for(p, f, e, f.op_at(d[j].site), d[j].fault) && holds(d[j].violation, env)
            == faulty(p, f, e, f.op_at(d[j].site), d[j].fault, env) by {
            if j < b.len() {
                assert(d[j] == b[j]);
            }
        }
        let b = convert_upto(p, f, e, k - 1);
        let d = convert_upto(p, f, e, k);
        assert forall|j: int| 0 <= j < d.len() implies f.sites().contains((#[trigger] d[j]).site)
            && looks_for(p, f, e, f.op_at(d[j].site), d[j].fault) && holds(d[j].violation, env)
            == faulty(p, f, e, f.op_at(d[j].site), d[j].fault, env) by {
            if j < b.len() {
                assert(d[j] == b[j]);
            }
        }
    }
}

/// Whether one of `xs` asks about `fault` at `s`.
pub open spec fn some_asks(
    p: &Program,
    f: &Function,
    e: EncodedV,
    xs: Seq<FaultSiteV>,
    s: Site,
    fault: Fault,
    env: Env,
) -> bool {
    exists|j: int| asks_about(p, f, e, xs, s, fault, env, j)
}

proof fn lemma_some_asks_more(
    p: &Program,
    f: &Function,
    e: EncodedV,
    a: Seq<FaultSiteV>,
    b: Seq<FaultSiteV>,
    s: Site,
    fault: Fault,
    env: Env,
)
    requires
        some_asks(p, f, e, a, s, fault, env) || some_asks(p, f, e, b, s, fault, env),
    ensures
        some_asks(p, f, e, a + b, s, fault, env),
{
    if some_asks(p, f, e, a, s, fault, env) {
        let j = choose|j: int| asks_about(p, f, e, a, s, fault, env, j);
        assert((a + b)[j] == a[j]);
        assert(asks_about(p, f, e, a + b, s, fault, env, j));
    } else {
        let j = choose|j: int| asks_about(p, f, e, b, s, fault, env, j);
        assert((a + b)[a.len() + j] == b[j]);
        assert(asks_about(p, f, e, a + b, s, fault, env, a.len() + j));
    }
}

proof fn lemma_some_asks(
    p: &Program,
    f: &Function,
    e: EncodedV,
    i: int,
    k: int,
    fault: Fault,
    env: Env,
)
    requires
        env_fits(env),
        typed(p, f, e),
        0 <= i < k <= f.sites().len(),
        looks_for(p, f, e, f.op_at(f.sites()[i]), fault),
    ensures
        ({
            let s = f.sites()[i];
            &&& fault == Fault::Bounds ==> some_asks(
                p,
                f,
                e,
                bounds_upto(p, f, e, k),
                s,
                fault,
                env,
            )
            &&& fault != Fault::Bounds && f.op_at(s) is BinOp ==> some_asks(
                p,
                f,
                e,
                divrem_upto(p, f, e, k),
                s,
                fault,
                env,
            )
            &&& f.op_at(s) is Convert ==> some_asks(
                p,
                f,
                e,
                convert_upto(p, f, e, k),
                s,
                fault,
                env,
            )
        }),
    decreases k,
{
    let s = f.sites()[k - 1];
    let b = bounds_at(p, f, e, s);
    let d = divrem_at(p, f, e, s);
    let c = convert_at(p, f, e, s);
    let here = f.sites()[i];
    if i < k - 1 {
        lemma_some_asks(p, f, e, i, k - 1, fault, env);
    } else {
        lemma_bounds_at(p, f, e, s, env);
        lemma_divrem_at(p, f, e, s, env);
        lemma_convert_at(p, f, e, s, env);
        if fault == Fault::Bounds {
            assert(asks_about(p, f, e, opt_seq(b), s, fault, env, 0));
        } else if f.op_at(s) is Convert {
            assert(asks_about(p, f, e, opt_seq(c), s, fault, env, 0));
        } else if fault == Fault::DivZero {
            assert(asks_about(p, f, e, d, s, fault, env, 0));
        } else {
            assert(asks_about(p, f, e, d, s, fault, env, 1));
        }
    }
    if fault == Fault::Bounds {
        lemma_some_asks_more(p, f, e, bounds_upto(p, f, e, k - 1), opt_seq(b), here, fault, env);
    }
    if fault != Fault::Bounds && f.op_at(here) is BinOp {
        lemma_some_asks_more(p, f, e, divrem_upto(p, f, e, k - 1), d, here, fault, env);
    }
    if f.op_at(here) is Convert {
        lemma_some_asks_more(p, f, e, convert_upto(p, f, e, k - 1), opt_seq(c), here, fault, env);
    }
}

/// Every operation that Go may stop at is looked at, for every way in which it can fail, and
/// what is asked is whether it fails in that way.
pub proof fn every_fault_is_asked_about(
    p: &Program,
    f: &Function,
    e: EncodedV,
    i: int,
    fault: Fault,
    env: Env,
)
    requires
        env_fits(env),
        typed(p, f, e),
        0 <= i < f.sites().len(),
        looks_for(p, f, e, f.op_at(f.sites()[i]), fault),
    ensures
        some_asks(p, f, e, fault_sites(p, f, e), f.sites()[i], fault, env),
{
    let n = f.sites().len() as int;
    let s = f.sites()[i];
    lemma_some_asks(p, f, e, i, n, fault, env);
    let b = bounds_upto(p, f, e, n);
    let d = divrem_upto(p, f, e, n);
    let c = convert_upto(p, f, e, n);
    if fault == Fault::Bounds || f.op_at(s) is BinOp {
        lemma_some_asks_more(p, f, e, b, d, s, fault, env);
    }
    lemma_some_asks_more(p, f, e, b + d, c, s, fault, env);
}

/// Nothing else is looked at.
pub proof fn only_faults_are_asked_about(p: &Program, f: &Function, e: EncodedV, env: Env)
    requires
        env_fits(env),
        typed(p, f, e),
    ensures
        all_ask(p, f, e, fault_sites(p, f, e), env),
{
    let n = f.sites().len() as int;
    lemma_all_ask(p, f, e, n, env);
    let b = bounds_upto(p, f, e, n);
    let d = divrem_upto(p, f, e, n);
    let c = convert_upto(p, f, e, n);
    let xs = fault_sites(p, f, e);
    assert forall|j: int| 0 <= j < xs.len() implies f.sites().contains((#[trigger] xs[j]).site)
        && looks_for(p, f, e, f.op_at(xs[j].site), xs[j].fault) && holds(xs[j].violation, env)
        == faulty(p, f, e, f.op_at(xs[j].site), xs[j].fault, env) by {
        if j < b.len() {
            assert(xs[j] == b[j]);
        } else if j < b.len() + d.len() {
            assert(xs[j] == d[j - b.len()]);
        } else {
            assert(xs[j] == c[j - b.len() - d.len()]);
        }
    }
}

} // verus!
