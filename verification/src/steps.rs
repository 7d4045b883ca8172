//! What an encoding says of single values: what slicing, making, measuring and taking an
//! address give, and what constants are.

use vstd::prelude::*;
use vstd::arithmetic::div_mod::{lemma_mod_bound, lemma_small_mod};
use vstd::arithmetic::power2::lemma2_to64;
use crate::arith::{modelled, value_of, wraps_to};
use crate::encode::{
    const_def, declared, opt_seq, seq_invariant_of, slice_made, value_name_of, wrapped, EncodedV,
};
use crate::ir::{Callee, ConstVal, Function, MakeKind, Op, Program, TypeId, ValueId, ValueKind};
use crate::nilness::lemma_all_hold_append;
use crate::ops::{op_def_of, uintptr_from};
use crate::ranges::has_bounds;
use crate::term::{Sort, TermV};
use crate::types::{
    array_len_of, int_repr_of, int_widths, ints_are_bitvectors, is_basic, sort_of_type,
};
use crate::values::{
    all_hold, bits, env_fits, fits, holds, literals_fill_the_width, number, number_is_injective,
    size, value, value_fits, Env, Value,
};

verus! {

// ---- Operations ----

/// The bits of the length of `base`: an array's own, or a slice's.
pub open spec fn len_bits(p: &Program, f: &Function, e: EncodedV, base: ValueId, env: Env) -> nat {
    match array_len_of(&p.types, f.type_of(base)) {
        Some(n) => n as nat,
        None => match value_of(e, base, env) {
            Value::Slice(l, _) => l,
            _ => 0,
        },
    }
}

/// The bits of the capacity of `base`: an array's length, or a slice's capacity.
pub open spec fn cap_bits(p: &Program, f: &Function, e: EncodedV, base: ValueId, env: Env) -> nat {
    match array_len_of(&p.types, f.type_of(base)) {
        Some(n) => n as nat,
        None => match value_of(e, base, env) {
            Value::Slice(_, c) => c,
            _ => 0,
        },
    }
}

/// The bits of an operand, or `default` where it is left out.
pub open spec fn bits_or(e: EncodedV, v: Option<ValueId>, default: nat, env: Env) -> nat {
    match v {
        Some(x) => bits(value_of(e, x, env)),
        None => default,
    }
}

/// Whether an operand is a modelled 64-bit integer, if it is there.
pub open spec fn int_or_none(e: EncodedV, v: Option<ValueId>) -> bool {
    v matches Some(x) ==> modelled(e, x, Sort::BitVec(64))
}

/// `base[low:high:max]` has length `high - low` and capacity `max - low`, where `low` is 0,
/// `high` the length and `max` the capacity of the base if they are left out.
pub proof fn slicing_cuts_by_the_bounds(
    p: &Program,
    f: &Function,
    e: EncodedV,
    block: int,
    dst: ValueId,
    base: ValueId,
    low: Option<ValueId>,
    high: Option<ValueId>,
    max: Option<ValueId>,
    env: Env,
)
    requires
        env_fits(env),
        modelled(e, dst, Sort::GoSeq),
        has_bounds(p, f, e, base),
        int_or_none(e, low),
        int_or_none(e, high),
        int_or_none(e, max),
    ensures
        ({
            let l = bits_or(e, low, 0, env);
            let h = bits_or(e, high, len_bits(p, f, e, base, env), env);
            let m = bits_or(e, max, cap_bits(p, f, e, base, env), env);
            op_def_of(p, f, e, block, Op::Slice { dst, base, low, high, max }) matches Some(d) && (
            holds(d, env) <==> value_of(e, dst, env) == Value::Slice(
                ((h - l) % size(64)) as nat,
                ((m - l) % size(64)) as nat,
            ))
        }),
{
    reveal_with_fuel(value, 4);
    lemma2_to64();
    lemma_small_mod(0, size(64) as nat);
    match array_len_of(&p.types, f.type_of(base)) {
        Some(n) => {
            lemma_small_mod(n as nat, size(64) as nat);
            let lit = TermV::BvLit(64, n as u128);
            assert(value(lit, env) == Value::Bits(n as nat));
        },
        None => {
            value_fits(e.value(base).unwrap(), env);
        },
    }
    assert(value(TermV::BvLit(64, 0), env) == Value::Bits(0));
}

/// A made slice has the length and the capacity that it is asked for; the capacity is the
/// length where none is asked for.
pub proof fn making_gives_length_and_capacity(
    p: &Program,
    f: &Function,
    e: EncodedV,
    block: int,
    dst: ValueId,
    args: Vec<ValueId>,
    env: Env,
)
    requires
        modelled(e, dst, Sort::GoSeq),
        args@.len() > 0,
        modelled(e, args@[0], Sort::BitVec(64)),
        args@.len() > 1 ==> modelled(e, args@[1], Sort::BitVec(64)),
    ensures
        op_def_of(p, f, e, block, Op::Make { dst, kind: MakeKind::Slice, args }) matches Some(d) && (
        holds(d, env) <==> value_of(e, dst, env) == Value::Slice(
            bits(value_of(e, args@[0], env)),
            bits(value_of(e, args@[if args@.len() > 1 { 1int } else { 0int }], env)),
        )),
{
    reveal_with_fuel(value, 3);
}

/// `len` gives the length.
pub proof fn measuring_gives_the_length(
    p: &Program,
    f: &Function,
    e: EncodedV,
    block: int,
    dst: ValueId,
    name: String,
    args: Vec<ValueId>,
    env: Env,
)
    requires
        env_fits(env),
        name@ == "len"@,
        modelled(e, dst, Sort::BitVec(64)),
        args@.len() > 0,
        modelled(e, args@[0], Sort::GoSeq),
    ensures
        op_def_of(
            p,
            f,
            e,
            block,
            Op::Call { dst: Some(dst), callee: Callee::Builtin(name), args },
        ) matches Some(d) && (holds(d, env) <==> (value_of(e, args@[0], env) matches Value::Slice(
            l,
            c,
        ) && value_of(e, dst, env) == Value::Bits(l))),
{
    reveal_with_fuel(value, 3);
    value_fits(e.value(args@[0]).unwrap(), env);
}

/// Whether an operation gives the address of something that is there.
pub open spec fn takes_address(op: Op, dst: ValueId) -> bool {
    match op {
        Op::Alloc { dst: d, .. } => d == dst,
        Op::FieldAddr { dst: d, .. } => d == dst,
        Op::IndexAddr { dst: d, .. } => d == dst,
        _ => false,
    }
}

/// The address of an allocation, a field or an element is not nil; nor is a pointer that is
/// converted from a `uintptr`.
pub proof fn addresses_are_not_nil(
    p: &Program,
    f: &Function,
    e: EncodedV,
    block: int,
    op: Op,
    dst: ValueId,
    env: Env,
)
    requires
        modelled(e, dst, Sort::Ptr),
        takes_address(op, dst) || (op matches Op::Convert { dst: d, src } && d == dst && is_basic(
            &p.types,
            f.type_of(src),
            "uintptr"@,
        )),
    ensures
        op_def_of(p, f, e, block, op) matches Some(d) && (holds(d, env) <==> value_of(e, dst, env)
            != Value::Ptr(0)),
{
    reveal_with_fuel(value, 3);
    reveal_with_fuel(uintptr_from, 2);
}

/// Nothing is said of what is loaded, received, looked up or extracted, nor of what a call
/// other than `len` returns, nor of a conversion between values that are no pointers.
pub proof fn unknown_results_are_left_open(
    p: &Program,
    f: &Function,
    e: EncodedV,
    block: int,
    op: Op,
)
    requires
        match op {
            Op::Load { .. } | Op::Store { .. } | Op::Field { .. } | Op::Index { .. } => true,
            Op::Lookup { .. } | Op::Recv { .. } | Op::Select { .. } | Op::TypeAssert { .. } => true,
            Op::Extract { .. } | Op::MakeClosure { .. } | Op::MakeInterface { .. } => true,
            Op::Call { callee: Callee::Builtin(name), .. } => name@ != "len"@,
            Op::Call { .. } | Op::Go { .. } | Op::Defer { .. } | Op::Havoc { .. } => true,
            Op::Convert { src, .. } => !is_basic(&p.types, f.type_of(src), "uintptr"@) && !is_basic(
                &p.types,
                f.type_of(src),
                "Pointer"@,
            ),
            Op::Make { kind, .. } => kind != MakeKind::Slice,
            _ => false,
        },
    ensures
        op_def_of(p, f, e, block, op) is None,
{
    reveal_with_fuel(uintptr_from, 2);
}

// ---- Constants ----

/// Whether `v` is the value of the constant `c`, as a value of type `ty`: a truth value, an
/// integer of the type, nil, or a string of so many bytes.
pub open spec fn is_constant(p: &Program, ty: TypeId, c: ConstVal, v: Value) -> bool {
    match c {
        ConstVal::Bool(b) => v == Value::Bool(b),
        ConstVal::Int(i) => match int_repr_of(&p.types, ty) {
            Some((w, s)) => v matches Value::Bits(n) && number(n, w, s) == wraps_to(i as int, w, s),
            None => true,
        },
        ConstVal::Nil => match sort_of_type(&p.types, ty) {
            Some(Sort::Ptr) => v == Value::Ptr(0),
            Some(Sort::GoSeq) => v == Value::Slice(0, 0),
            _ => true,
        },
        ConstVal::Str(b) => v == Value::Slice(b@.len(), b@.len()),
        _ => true,
    }
}

/// Whether a constant can have type `ty`: truth values are boolean, strings are strings, and
/// no string is longer than an `int` can count.
pub open spec fn constant_fits(p: &Program, ty: TypeId, c: ConstVal) -> bool {
    match c {
        ConstVal::Bool(_) => sort_of_type(&p.types, ty) == Some(Sort::Bool),
        ConstVal::Str(b) => sort_of_type(&p.types, ty) == Some(Sort::GoSeq) && b@.len() < size(64),
        _ => true,
    }
}

/// What is asserted of a constant is that it has its value.
pub proof fn constants_have_their_values(
    p: &Program,
    f: &Function,
    v: ValueId,
    c: ConstVal,
    t: TermV,
    env: Env,
)
    requires
        env_fits(env),
        f.kind_of(v) == ValueKind::Const(c),
        constant_fits(p, f.type_of(v), c),
        t.well_sorted(),
        sort_of_type(&p.types, f.type_of(v)) == Some(t.sort()),
    ensures
        match const_def(p, f, v, t) {
            Some(d) => holds(d, env) <==> is_constant(p, f.type_of(v), c, value(t, env)),
            None => is_constant(p, f.type_of(v), c, value(t, env)),
        },
{
    reveal_with_fuel(value, 3);
    lemma2_to64();
    let ty = f.type_of(v);
    value_fits(t, env);
    int_widths(&p.types, ty);
    ints_are_bitvectors(&p.types, ty);
    match c {
        ConstVal::Int(i) => {
            if let Some((w, s)) = int_repr_of(&p.types, ty) {
                literals_fill_the_width(w);
                lemma_mod_bound(i as int, size(w));
                let r = (i as int % size(w)) as nat;
                lemma_small_mod(r, size(w) as nat);
                let lit = TermV::BvLit(w, wrapped(i as int, w));
                assert(value(lit, env) == Value::Bits(r));
                let n = bits(value(t, env));
                number_is_injective(n, r, w, s);
            }
        },
        ConstVal::Str(b) => {
            lemma_small_mod(b@.len(), size(64) as nat);
        },
        ConstVal::Nil => {
            lemma_small_mod(0, size(64) as nat);
        },
        _ => {},
    }
}

// ---- Declarations ----

/// Whether an instruction makes `v` by slicing.
pub open spec fn made_by_slicing(f: &Function, v: ValueId) -> bool {
    exists|k: int|
        0 <= k < f.sites().len() && (f.op_at(#[trigger] f.sites()[k]) matches Op::Slice { dst, .. }
            && dst == v)
}

/// Whether `x` is a possible value of `v`: a slice is no longer than its capacity, unless it is
/// made by slicing, and a constant has its value.
pub open spec fn possible_value(p: &Program, f: &Function, v: ValueId, x: Value) -> bool {
    &&& x matches Value::Slice(l, c) ==> l <= c || made_by_slicing(f, v)
    &&& f.kind_of(v) matches ValueKind::Const(c) ==> is_constant(p, f.type_of(v), c, x)
}

/// Declaring a value gives it a variable of its own, of the sort of its type, that has a
/// possible value.
pub proof fn declared_values_are_possible(
    p: &Program,
    f: &Function,
    e: EncodedV,
    v: ValueId,
    sort: Sort,
    env: Env,
)
    requires
        env_fits(env),
        e.value(v) is None,
        sort_of_type(&p.types, f.type_of(v)) == Some(sort),
        f.kind_of(v) matches ValueKind::Const(c) ==> constant_fits(p, f.type_of(v), c),
    ensures
        declared(p, f, e, v).value(v) == Some(TermV::Var(value_name_of(f, v), sort)),
        all_hold(declared(p, f, e, v).asserts, env) <==> all_hold(e.asserts, env) && possible_value(
            p,
            f,
            v,
            env(value_name_of(f, v), sort),
        ),
{
    reveal_with_fuel(value, 3);
    let t = TermV::Var(value_name_of(f, v), sort);
    let x = env(value_name_of(f, v), sort);
    assert(value(t, env) == x);
    assert(fits(x, sort));
    let inv = if sort == Sort::GoSeq && !slice_made(f, v) {
        seq_invariant_of(t)
    } else {
        None
    };
    let d = const_def(p, f, v, t);
    let asserts = declared(p, f, e, v).asserts;
    assert(asserts =~= e.asserts + opt_seq(inv) + opt_seq(d));
    lemma_all_hold_append(e.asserts, opt_seq(inv), env);
    lemma_all_hold_append(e.asserts + opt_seq(inv), opt_seq(d), env);
    if let Some(i) = inv {
        assert(opt_seq(inv)[0] == i);
        assert(all_hold(opt_seq(inv), env) == holds(i, env));
    }
    if let Some(i) = d {
        assert(opt_seq(d)[0] == i);
        assert(all_hold(opt_seq(d), env) == holds(i, env));
    }
    assert(made_by_slicing(f, v) == slice_made(f, v));
    if let ValueKind::Const(c) = f.kind_of(v) {
        constants_have_their_values(p, f, v, c, t, env);
    }
}

} // verus!
