//! Operators compute what Go defines: integers wrap around, quotients are rounded toward zero,
//! shifts multiply and divide by powers of two, and comparisons are those of numbers.

use vstd::prelude::*;
use vstd::arithmetic::div_mod::{
    lemma_add_mod_noop, lemma_fundamental_div_mod, lemma_mod_bound, lemma_mul_mod_noop,
    lemma_small_mod, lemma_sub_mod_noop,
};
use vstd::arithmetic::power2::{lemma2_to64, lemma_pow2_pos, pow2};
use crate::encode::EncodedV;
use crate::ir::{BinOpKind, Function, Op, Program, UnOpKind, ValueId};
use crate::ops::{bv_op_of, ones, op_def_of};
use crate::term::{BvBinOp, Sort};
use crate::types::{int_repr_of, int_widths};
use crate::values::{
    bin_value, bits, env_fits, go_width, holds, literals_fill_the_width, number, number_in_range,
    number_is_congruent, number_is_injective, quotient, remainder, size, value, value_fits, Env,
    Value,
};

verus! {

/// Whether `v` is modelled by a term of sort `s`.
pub open spec fn modelled(e: EncodedV, v: ValueId, s: Sort) -> bool {
    e.value(v) matches Some(t) && t.well_sorted() && t.sort() == s
}

/// The value of `v`.
pub open spec fn value_of(e: EncodedV, v: ValueId, env: Env) -> Value {
    value(e.value(v).unwrap(), env)
}

/// The integer that `v` is.
pub open spec fn integer(e: EncodedV, v: ValueId, w: u32, signed: bool, env: Env) -> int {
    number(bits(value_of(e, v, env)), w, signed)
}

/// The integer of a type that `x` wraps around to.
pub open spec fn wraps_to(x: int, w: u32, signed: bool) -> int {
    number((x % size(w)) as nat, w, signed)
}

/// The bits of `x` at width `w`.
pub open spec fn pattern(x: int, w: u32) -> u64 {
    (x % size(w)) as u64
}

/// Whether the operator gives an integer.
pub open spec fn is_arithmetic(kind: BinOpKind) -> bool {
    match kind {
        BinOpKind::Add | BinOpKind::Sub | BinOpKind::Mul | BinOpKind::Div | BinOpKind::Rem => true,
        BinOpKind::And | BinOpKind::Or | BinOpKind::Xor | BinOpKind::AndNot => true,
        BinOpKind::Shl | BinOpKind::Shr => true,
        _ => false,
    }
}

/// Whether Go defines `x kind y`: a divisor is not zero, and a shift count is not negative.
pub open spec fn go_defines(kind: BinOpKind, y: int) -> bool {
    match kind {
        BinOpKind::Div | BinOpKind::Rem => y != 0,
        BinOpKind::Shl | BinOpKind::Shr => y >= 0,
        _ => true,
    }
}

/// The integer that Go defines `x kind y` to be.
pub open spec fn go_integer(kind: BinOpKind, w: u32, signed: bool, x: int, y: int) -> int {
    match kind {
        BinOpKind::Add => wraps_to(x + y, w, signed),
        BinOpKind::Sub => wraps_to(x - y, w, signed),
        BinOpKind::Mul => wraps_to(x * y, w, signed),
        BinOpKind::Div => wraps_to(quotient(x, y), w, signed),
        BinOpKind::Rem => remainder(x, y),
        BinOpKind::And => number((pattern(x, w) & pattern(y, w)) as nat, w, signed),
        BinOpKind::Or => number((pattern(x, w) | pattern(y, w)) as nat, w, signed),
        BinOpKind::Xor => number((pattern(x, w) ^ pattern(y, w)) as nat, w, signed),
        BinOpKind::AndNot => number((pattern(x, w) & !pattern(y, w)) as nat, w, signed),
        BinOpKind::Shl => wraps_to(x * pow2(y as nat), w, signed),
        BinOpKind::Shr => x / pow2(y as nat) as int,
        _ => 0,
    }
}

/// The truth value that Go defines `x kind y` to be.
pub open spec fn go_comparison(kind: BinOpKind, x: int, y: int) -> bool {
    match kind {
        BinOpKind::Eq => x == y,
        BinOpKind::Neq => x != y,
        BinOpKind::Lt => x < y,
        BinOpKind::Leq => x <= y,
        BinOpKind::Gt => x > y,
        BinOpKind::Geq => x >= y,
        _ => false,
    }
}

proof fn lemma_bitwise(w: u32, a: nat, b: nat)
    requires
        go_width(w),
        a < size(w),
        b < size(w),
    ensures
        ((a as u64) & (b as u64)) < size(w),
        ((a as u64) | (b as u64)) < size(w),
        ((a as u64) ^ (b as u64)) < size(w),
        ((a as u64) & !(b as u64)) < size(w),
        ones(w) == size(w) - 1,
        ((b as u64) ^ (ones(w) as u64)) < size(w),
        (a as u64) & ((b as u64) ^ (ones(w) as u64)) == (a as u64) & !(b as u64),
        (b as u64) ^ (ones(w) as u64) == size(w) - 1 - b,
{
    lemma2_to64();
    literals_fill_the_width(w);
    let x = a as u64;
    let y = b as u64;
    let m = ones(w) as u64;
    assert(x & y <= m && x | y <= m && x ^ y <= m && x & !y <= m && y ^ m <= m && x & (y ^ m) == x
        & !y && y ^ m == m - y) by (bit_vector)
        requires
            x <= m,
            y <= m,
            m == 0xff || m == 0xffff || m == 0xffff_ffff || m == 0xffff_ffff_ffff_ffff,
    ;
}

proof fn lemma_quotient(x: int, y: int)
    requires
        y != 0,
    ensures
        x >= 0 && y > 0 ==> quotient(x, y) == x / y && remainder(x, y) == x % y,
        x >= 0 ==> 0 <= remainder(x, y) <= x,
        x <= 0 ==> x <= remainder(x, y) <= 0,
        x >= 0 ==> -x <= quotient(x, y) <= x,
        x <= 0 ==> x <= quotient(x, y) <= -x,
{
    let ax = if x < 0 { -x } else { x };
    let ay = if y < 0 { -y } else { y };
    lemma_fundamental_div_mod(ax, ay);
    lemma_mod_bound(ax, ay);
    let q = ax / ay;
    assert(0 <= q <= ax && 0 <= ay * q <= ax) by (nonlinear_arith)
        requires
            ax >= 0,
            ay > 0,
            q == ax / ay,
    ;
    let s = quotient(x, y);
    assert(y * s == ay * q || y * s == -(ay * q)) by (nonlinear_arith)
        requires
            y == ay || y == -ay,
            s == q || s == -q,
    ;
    assert((x < 0) == (y < 0) ==> s == q);
    assert(x >= 0 ==> y * s == ay * q) by (nonlinear_arith)
        requires
            x >= 0 && y > 0 ==> y == ay && s == q,
            x >= 0 && y < 0 ==> y == -ay && s == -q,
            y != 0,
    ;
    assert(x < 0 ==> y * s == -(ay * q)) by (nonlinear_arith)
        requires
            x < 0 && y > 0 ==> y == ay && s == -q,
            x < 0 && y < 0 ==> y == -ay && s == q,
            y != 0,
    ;
}

proof fn lemma_shift_right(x: int, k: nat, w: u32, signed: bool)
    requires
        signed ==> -size(w) <= 2 * x < size(w),
        !signed ==> 0 <= x < size(w),
    ensures
        signed ==> -size(w) <= 2 * (x / pow2(k) as int) < size(w),
        !signed ==> 0 <= x / pow2(k) as int && x / (pow2(k) as int) < size(w),
{
    lemma_pow2_pos(k);
    let d = pow2(k) as int;
    let q = x / d;
    lemma_fundamental_div_mod(x, d);
    lemma_mod_bound(x, d);
    assert(x >= 0 ==> 0 <= q <= x) by (nonlinear_arith)
        requires
            d > 0,
            x == d * q + x % d,
            0 <= x % d < d,
    ;
    assert(x < 0 ==> x <= q < 0) by (nonlinear_arith)
        requires
            d > 0,
            x == d * q + x % d,
            0 <= x % d < d,
    ;
}

/// The bits that an operation gives are those of the integer that Go defines.
proof fn lemma_go_bits(o: BvBinOp, kind: BinOpKind, w: u32, signed: bool, rs: bool, a: nat, b: nat)
    requires
        go_width(w),
        a < size(w),
        b < size(w),
        kind != BinOpKind::AndNot,
        bv_op_of(kind, signed) == Some(o),
        rs == signed || kind == BinOpKind::Shl || kind == BinOpKind::Shr,
        go_defines(kind, number(b, w, rs)),
    ensures
        0 <= bin_value(o, w, a, b) % size(w) < size(w),
        number((bin_value(o, w, a, b) % size(w)) as nat, w, signed) == go_integer(
            kind,
            w,
            signed,
            number(a, w, signed),
            number(b, w, rs),
        ),
{
    let m = size(w);
    lemma_pow2_pos(w as nat);
    lemma_mod_bound(bin_value(o, w, a, b), m);
    let x = number(a, w, signed);
    let y = number(b, w, rs);
    number_is_congruent(a, w, signed);
    number_is_congruent(b, w, rs);
    number_is_congruent(a, w, true);
    number_is_congruent(b, w, true);
    lemma_small_mod(a, m as nat);
    lemma_small_mod(b, m as nat);
    lemma_bitwise(w, a, b);
    lemma2_to64();
    match kind {
        BinOpKind::Add => {
            lemma_add_mod_noop(x, y, m);
        },
        BinOpKind::Sub => {
            lemma_sub_mod_noop(x, y, m);
        },
        BinOpKind::Mul => {
            lemma_mul_mod_noop(x, y, m);
            lemma_mul_mod_noop(a as int, b as int, m);
        },
        BinOpKind::Div => {
            lemma_quotient(x, y);
        },
        BinOpKind::Rem => {
            lemma_quotient(x, y);
            if !signed {
                assert(remainder(x, y) < m);
            }
            number_in_range(remainder(x, y), w, signed);
        },
        BinOpKind::And => {
            lemma_small_mod(((a as u64) & (b as u64)) as nat, m as nat);
        },
        BinOpKind::Or => {
            lemma_small_mod(((a as u64) | (b as u64)) as nat, m as nat);
        },
        BinOpKind::Xor => {
            lemma_small_mod(((a as u64) ^ (b as u64)) as nat, m as nat);
        },
        BinOpKind::Shl => {
            let k = pow2(b) as int;
            lemma_mul_mod_noop(x, k, m);
            lemma_mul_mod_noop(a as int, k, m);
        },
        BinOpKind::Shr => {
            lemma_shift_right(x, b, w, signed);
            number_in_range(x / pow2(b) as int, w, signed);
        },
        _ => {},
    }
}

/// On integers, the result of an arithmetic operator is what Go defines it to be, and every
/// such operator is modelled. The count of a shift may have a type of its own sign, `rs`.
pub proof fn integers_compute_as_in_go(
    p: &Program,
    f: &Function,
    e: EncodedV,
    block: int,
    dst: ValueId,
    kind: BinOpKind,
    lhs: ValueId,
    rhs: ValueId,
    w: u32,
    signed: bool,
    rs: bool,
    env: Env,
)
    requires
        is_arithmetic(kind),
        int_repr_of(&p.types, f.type_of(lhs)) == Some((w, signed)),
        modelled(e, dst, Sort::BitVec(w)),
        modelled(e, lhs, Sort::BitVec(w)),
        modelled(e, rhs, Sort::BitVec(w)),
        rs == signed || kind == BinOpKind::Shl || kind == BinOpKind::Shr,
        env_fits(env),
        go_defines(kind, integer(e, rhs, w, rs, env)),
    ensures
        op_def_of(p, f, e, block, Op::BinOp { dst, kind, lhs, rhs }) matches Some(t) && holds(t, env)
            == (integer(e, dst, w, signed, env) == go_integer(
            kind,
            w,
            signed,
            integer(e, lhs, w, signed, env),
            integer(e, rhs, w, rs, env),
        )),
{
    reveal_with_fuel(value, 4);
    int_widths(&p.types, f.type_of(lhs));
    let (d, l, r) = (e.value(dst).unwrap(), e.value(lhs).unwrap(), e.value(rhs).unwrap());
    value_fits(d, env);
    value_fits(l, env);
    value_fits(r, env);
    let (c, a, b) = (bits(value(d, env)), bits(value(l, env)), bits(value(r, env)));
    let m = size(w);
    if kind == BinOpKind::AndNot {
        lemma_bitwise(w, a, b);
        lemma2_to64();
        let o = ones(w);
        let n = ((b as u64) ^ (o as u64)) as nat;
        lemma_small_mod(o as nat, m as nat);
        lemma_small_mod(n, m as nat);
        lemma_bitwise(w, a, n);
        lemma_small_mod(((a as u64) & (n as u64)) as nat, m as nat);
        number_is_congruent(a, w, signed);
        number_is_congruent(b, w, rs);
        number_is_injective(c, ((a as u64) & !(b as u64)) as nat, w, signed);
    } else {
        let o = bv_op_of(kind, signed).unwrap();
        lemma_go_bits(o, kind, w, signed, rs, a, b);
        number_is_injective(c, (bin_value(o, w, a, b) % m) as nat, w, signed);
    }
}

/// On integers, comparisons are those of numbers.
pub proof fn integers_compare_as_in_go(
    p: &Program,
    f: &Function,
    e: EncodedV,
    block: int,
    dst: ValueId,
    kind: BinOpKind,
    lhs: ValueId,
    rhs: ValueId,
    w: u32,
    signed: bool,
    env: Env,
)
    requires
        !is_arithmetic(kind),
        int_repr_of(&p.types, f.type_of(lhs)) == Some((w, signed)),
        modelled(e, dst, Sort::Bool),
        modelled(e, lhs, Sort::BitVec(w)),
        modelled(e, rhs, Sort::BitVec(w)),
        env_fits(env),
    ensures
        op_def_of(p, f, e, block, Op::BinOp { dst, kind, lhs, rhs }) matches Some(t) && holds(t, env)
            == (value_of(e, dst, env) == Value::Bool(
            go_comparison(
                kind,
                integer(e, lhs, w, signed, env),
                integer(e, rhs, w, signed, env),
            ),
        )),
{
    reveal_with_fuel(value, 3);
    let (d, l, r) = (e.value(dst).unwrap(), e.value(lhs).unwrap(), e.value(rhs).unwrap());
    value_fits(d, env);
    value_fits(l, env);
    value_fits(r, env);
    let (a, b) = (bits(value(l, env)), bits(value(r, env)));
    number_is_injective(a, b, w, signed);
    number_is_congruent(a, w, signed);
    number_is_congruent(b, w, signed);
}

/// Values of one sort are equal or not; that is modelled for every sort.
pub proof fn equality_is_equality(
    p: &Program,
    f: &Function,
    e: EncodedV,
    block: int,
    dst: ValueId,
    lhs: ValueId,
    rhs: ValueId,
    s: Sort,
    env: Env,
)
    requires
        modelled(e, dst, Sort::Bool),
        modelled(e, lhs, s),
        modelled(e, rhs, s),
        env_fits(env),
    ensures
        op_def_of(p, f, e, block, Op::BinOp { dst, kind: BinOpKind::Eq, lhs, rhs }) matches Some(t)
            && holds(t, env) == (value_of(e, dst, env) == Value::Bool(
            value_of(e, lhs, env) == value_of(e, rhs, env),
        )),
        op_def_of(p, f, e, block, Op::BinOp { dst, kind: BinOpKind::Neq, lhs, rhs }) matches Some(t)
            && holds(t, env) == (value_of(e, dst, env) == Value::Bool(
            value_of(e, lhs, env) != value_of(e, rhs, env),
        )),
{
    reveal_with_fuel(value, 3);
    value_fits(e.value(dst).unwrap(), env);
}

/// Negation and complement of integers wrap around: `-x`, and `-1 - x`.
pub proof fn integers_negate_as_in_go(
    p: &Program,
    f: &Function,
    e: EncodedV,
    block: int,
    dst: ValueId,
    operand: ValueId,
    w: u32,
    signed: bool,
    env: Env,
)
    requires
        int_repr_of(&p.types, f.type_of(operand)) == Some((w, signed)),
        modelled(e, dst, Sort::BitVec(w)),
        modelled(e, operand, Sort::BitVec(w)),
        env_fits(env),
    ensures
        op_def_of(p, f, e, block, Op::UnOp { dst, kind: UnOpKind::Neg, operand }) matches Some(t)
            && holds(t, env) == (integer(e, dst, w, signed, env) == wraps_to(
            -integer(e, operand, w, signed, env),
            w,
            signed,
        )),
        op_def_of(p, f, e, block, Op::UnOp { dst, kind: UnOpKind::BitNot, operand }) matches Some(t)
            && holds(t, env) == (integer(e, dst, w, signed, env) == wraps_to(
            -1 - integer(e, operand, w, signed, env),
            w,
            signed,
        )),
{
    reveal_with_fuel(value, 3);
    int_widths(&p.types, f.type_of(operand));
    let (d, o) = (e.value(dst).unwrap(), e.value(operand).unwrap());
    value_fits(d, env);
    value_fits(o, env);
    let (c, a) = (bits(value(d, env)), bits(value(o, env)));
    let m = size(w);
    let x = number(a, w, signed);
    lemma_pow2_pos(w as nat);
    number_is_congruent(a, w, signed);
    lemma_small_mod(0, m as nat);
    lemma_small_mod(a, m as nat);
    lemma_sub_mod_noop(0, x, m);
    lemma_sub_mod_noop(0, a as int, m);
    lemma_mod_bound(0 - a, m);
    number_is_injective(c, ((0 - a) % m) as nat, w, signed);
    lemma_bitwise(w, 0, a);
    lemma2_to64();
    let k = ones(w);
    lemma_small_mod(k as nat, m as nat);
    let n = ((a as u64) ^ (k as u64)) as nat;
    lemma_small_mod(n, m as nat);
    number_is_injective(c, n, w, signed);
    lemma_sub_mod_noop(-1, x, m);
    lemma_sub_mod_noop(-1, a as int, m);
    vstd::arithmetic::div_mod::lemma_mod_multiples_vanish(1, -1 - a, m);
    assert(-1 - a + m * 1 == m - 1 - a) by (nonlinear_arith);
}

/// `!x` is true exactly where `x` is not, and `x` assigned to a value is that value.
pub proof fn negation_and_assignment(
    p: &Program,
    f: &Function,
    e: EncodedV,
    block: int,
    dst: ValueId,
    operand: ValueId,
    s: Sort,
    env: Env,
)
    requires
        modelled(e, dst, s),
        modelled(e, operand, s),
        env_fits(env),
    ensures
        op_def_of(p, f, e, block, Op::Assign { dst, src: operand }) matches Some(t) && holds(t, env)
            == (value_of(e, dst, env) == value_of(e, operand, env)),
        s == Sort::Bool ==> (op_def_of(
            p,
            f,
            e,
            block,
            Op::UnOp { dst, kind: UnOpKind::Not, operand },
        ) matches Some(t) && holds(t, env) == (value_of(e, dst, env) != value_of(e, operand, env))),
{
    reveal_with_fuel(value, 3);
    value_fits(e.value(dst).unwrap(), env);
    value_fits(e.value(operand).unwrap(), env);
}

} // verus!
