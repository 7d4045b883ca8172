//! What terms mean: the value of a term, given those of its variables. Bitvectors follow the
//! SMT-LIB theory of fixed-size bitvectors, read as numbers.

use vstd::prelude::*;
use vstd::arithmetic::div_mod::{lemma_mod_bound, lemma_mod_multiples_vanish, lemma_small_mod};
use vstd::arithmetic::power2::{lemma2_to64, lemma_pow2_pos, pow2};
use crate::meaning::respects;
use crate::term::{lit_limit, t_eq, t_not, BvBinOp, BvCmpOp, Sort, TermV};

verus! {

/// A value: a truth value, the bits of an integer, a pointer of which 0 is nil, or the bits of
/// the length and the capacity of a slice.
pub enum Value {
    Bool(bool),
    Bits(nat),
    Ptr(int),
    Slice(nat, nat),
}

/// How many bitvectors of width `w` there are.
pub open spec fn size(w: u32) -> int {
    pow2(w as nat) as int
}

/// The values of variables.
pub type Env = spec_fn(Seq<char>, Sort) -> Value;

/// Whether `v` is a value of sort `s`.
pub open spec fn fits(v: Value, s: Sort) -> bool {
    match s {
        Sort::Bool => v is Bool,
        Sort::BitVec(w) => v matches Value::Bits(n) && n < size(w),
        Sort::Ptr => v is Ptr,
        Sort::GoSeq => v matches Value::Slice(l, c) && l < size(64) && c < size(64),
    }
}

/// Whether every variable has a value of its sort.
pub open spec fn env_fits(env: Env) -> bool {
    forall|n: Seq<char>, s: Sort| fits(#[trigger] env(n, s), s)
}

/// The bits of a bitvector.
pub open spec fn bits(v: Value) -> nat {
    match v {
        Value::Bits(n) => n,
        _ => 0,
    }
}

/// The number that `n` stands for in two's complement at width `w`, or without a sign.
pub open spec fn number(n: nat, w: u32, signed: bool) -> int {
    if signed && 2 * n >= size(w) {
        n - size(w)
    } else {
        n as int
    }
}

/// `x / y` rounded toward zero.
pub open spec fn quotient(x: int, y: int) -> int {
    let ax = if x < 0 { -x } else { x };
    let ay = if y < 0 { -y } else { y };
    if (x < 0) == (y < 0) {
        ax / ay
    } else {
        -(ax / ay)
    }
}

/// What `x / y` rounded toward zero leaves over.
pub open spec fn remainder(x: int, y: int) -> int {
    x - y * quotient(x, y)
}

/// What a bitvector operation gives, before it is reduced to the width.
pub open spec fn bin_value(o: BvBinOp, w: u32, a: nat, b: nat) -> int {
    let x = number(a, w, true);
    let y = number(b, w, true);
    match o {
        BvBinOp::Add => a as int + b,
        BvBinOp::Sub => a - b,
        BvBinOp::Mul => a as int * b,
        BvBinOp::And => ((a as u64) & (b as u64)) as int,
        BvBinOp::Or => ((a as u64) | (b as u64)) as int,
        BvBinOp::Xor => ((a as u64) ^ (b as u64)) as int,
        BvBinOp::Shl => a as int * pow2(b),
        BvBinOp::Lshr => a as int / pow2(b) as int,
        BvBinOp::Ashr => x / pow2(b) as int,
        BvBinOp::Udiv => if b == 0 { -1 } else { a as int / b as int },
        BvBinOp::Urem => if b == 0 { a as int } else { a as int % b as int },
        BvBinOp::Sdiv => if y == 0 { if x < 0 { 1 } else { -1 } } else { quotient(x, y) },
        BvBinOp::Srem => if y == 0 { x } else { remainder(x, y) },
    }
}

/// Whether a bitvector comparison holds.
pub open spec fn compare_value(o: BvCmpOp, w: u32, a: nat, b: nat) -> bool {
    match o {
        BvCmpOp::Ult => a < b,
        BvCmpOp::Ule => a <= b,
        BvCmpOp::Slt => number(a, w, true) < number(b, w, true),
        BvCmpOp::Sle => number(a, w, true) <= number(b, w, true),
    }
}

/// The width of a bitvector sort.
pub open spec fn width(s: Sort) -> u32 {
    match s {
        Sort::BitVec(w) => w,
        _ => 0,
    }
}

/// The value of a term.
pub open spec fn value(t: TermV, env: Env) -> Value
    decreases t,
{
    match t {
        TermV::Var(n, s) => env(n, s),
        TermV::BoolLit(b) => Value::Bool(b),
        TermV::BvLit(w, v) => Value::Bits((v as int % size(w)) as nat),
        TermV::Eq(a, b) => Value::Bool(value(*a, env) == value(*b, env)),
        TermV::Not(a) => Value::Bool(value(*a, env) != Value::Bool(true)),
        TermV::And(v) => Value::Bool(
            forall|i: int| 0 <= i < v.len() ==> value(#[trigger] v[i], env) == Value::Bool(true),
        ),
        TermV::Or(v) => Value::Bool(
            exists|i: int| 0 <= i < v.len() && value(#[trigger] v[i], env) == Value::Bool(true),
        ),
        TermV::Ite(c, a, b) => if value(*c, env) == Value::Bool(true) {
            value(*a, env)
        } else {
            value(*b, env)
        },
        TermV::BvBin(o, a, b) => {
            let w = width((*a).sort());
            let r = bin_value(o, w, bits(value(*a, env)), bits(value(*b, env)));
            Value::Bits((r % size(w)) as nat)
        },
        TermV::BvCmp(o, a, b) => Value::Bool(
            compare_value(
                o,
                width((*a).sort()),
                bits(value(*a, env)),
                bits(value(*b, env)),
            ),
        ),
        TermV::PtrNil => Value::Ptr(0),
        TermV::PtrIsNil(a) => Value::Bool(value(*a, env) == Value::Ptr(0)),
        TermV::SeqVal(a, b) => Value::Slice(bits(value(*a, env)), bits(value(*b, env))),
        TermV::SeqLen(a) => match value(*a, env) {
            Value::Slice(l, _) => Value::Bits(l),
            _ => Value::Bits(0),
        },
        TermV::SeqCap(a) => match value(*a, env) {
            Value::Slice(_, c) => Value::Bits(c),
            _ => Value::Bits(0),
        },
    }
}

/// Whether a term is true.
pub open spec fn holds(t: TermV, env: Env) -> bool {
    value(t, env) == Value::Bool(true)
}

/// Whether all of `s` are true.
pub open spec fn all_hold(s: Seq<TermV>, env: Env) -> bool {
    forall|i: int| 0 <= i < s.len() ==> holds(#[trigger] s[i], env)
}

/// Whether `w` is a width of Go's integers.
pub open spec fn go_width(w: u32) -> bool {
    w == 8 || w == 16 || w == 32 || w == 64
}

/// The literals of a width are the numbers below the power of two.
pub proof fn literals_fill_the_width(w: u32)
    requires
        go_width(w),
    ensures
        lit_limit(w) == size(w),
        size(w) == 2 * size((w - 1) as u32),
{
    lemma2_to64();
    vstd::arithmetic::power2::lemma_pow2_unfold(w as nat);
}

/// A conjunction is true if and only if all its parts are.
pub proof fn and_is_all(v: Seq<TermV>, env: Env)
    ensures
        holds(TermV::And(v), env) == all_hold(v, env),
{
    let t = TermV::And(v);
    if holds(t, env) {
        assert forall|i: int| 0 <= i < v.len() implies holds(#[trigger] v[i], env) by {
            assert(value(t->And_0[i], env) == Value::Bool(true));
        }
    }
    if all_hold(v, env) {
        assert forall|i: int| 0 <= i < v.len() implies value(#[trigger] v[i], env) == Value::Bool(
            true,
        ) by {
            assert(holds(v[i], env));
        }
    }
}

/// A disjunction is true if and only if one of its parts is.
pub proof fn or_is_some(v: Seq<TermV>, env: Env)
    ensures
        holds(TermV::Or(v), env) == exists|i: int| 0 <= i < v.len() && holds(#[trigger] v[i], env),
{
    let t = TermV::Or(v);
    if holds(t, env) {
        let i = choose|i: int| 0 <= i < v.len() && value(#[trigger] v[i], env) == Value::Bool(true);
        assert(holds(v[i], env));
    }
    if exists|i: int| 0 <= i < v.len() && holds(#[trigger] v[i], env) {
        let i = choose|i: int| 0 <= i < v.len() && holds(#[trigger] v[i], env);
        assert(value(t->Or_0[i], env) == Value::Bool(true));
    }
}

/// A well sorted term has a value of its sort.
pub proof fn value_fits(t: TermV, env: Env)
    requires
        env_fits(env),
        t.well_sorted(),
    ensures
        fits(value(t, env), t.sort()),
    decreases t,
{
    lemma_pow2_pos(64);
    match t {
        TermV::BvLit(w, v) => {
            lemma_pow2_pos(w as nat);
            lemma_mod_bound(v as int, size(w));
        },
        TermV::Ite(c, a, b) => {
            value_fits(*a, env);
            value_fits(*b, env);
        },
        TermV::BvBin(o, a, b) => {
            let w = width((*a).sort());
            lemma_pow2_pos(w as nat);
            lemma_mod_bound(
                bin_value(o, w, bits(value(*a, env)), bits(value(*b, env))),
                size(w),
            );
        },
        TermV::SeqVal(a, b) => {
            value_fits(*a, env);
            value_fits(*b, env);
        },
        TermV::SeqLen(a) => {
            value_fits(*a, env);
        },
        TermV::SeqCap(a) => {
            value_fits(*a, env);
        },
        _ => {},
    }
}

/// The values of terms respect the connectives.
pub proof fn values_respect(env: Env)
    ensures
        respects(|t: TermV| holds(t, env)),
{
    let h = |t: TermV| holds(t, env);
    assert forall|a: TermV| #[trigger] h(t_not(a)) == !h(a) by {}
    assert forall|v: Seq<TermV>, i: int|
        #![trigger h(TermV::And(v)), v[i]]
        0 <= i < v.len() && h(TermV::And(v)) implies h(v[i]) by {
        and_is_all(v, env);
        assert(holds(v[i], env));
    }
    assert forall|v: Seq<TermV>| #[trigger] h(TermV::Or(v)) implies exists|i: int|
        0 <= i < v.len() && h(#[trigger] v[i]) by {
        or_is_some(v, env);
        let i = choose|i: int| 0 <= i < v.len() && holds(#[trigger] v[i], env);
        assert(h(v[i]));
    }
    assert forall|a: TermV, b: TermV| #[trigger] h(t_eq(a, b)) && a.sort() == Sort::Bool implies h(a)
        == h(b) by {}
}

/// The number of some bits is congruent to them.
pub proof fn number_is_congruent(n: nat, w: u32, signed: bool)
    requires
        n < size(w),
    ensures
        number(n, w, signed) % size(w) == n,
        signed ==> -size(w) <= 2 * number(n, w, signed) < size(w),
        !signed ==> number(n, w, signed) == n,
{
    let m = size(w);
    lemma_small_mod(n, m as nat);
    lemma_mod_multiples_vanish(-1, n as int, m);
    assert(n + m * -1 == n - m) by (nonlinear_arith);
}

/// Numbers of one type with the same bits are the same.
pub proof fn number_is_injective(a: nat, b: nat, w: u32, signed: bool)
    requires
        a < size(w),
        b < size(w),
    ensures
        (number(a, w, signed) == number(b, w, signed)) == (a == b),
{
    number_is_congruent(a, w, signed);
    number_is_congruent(b, w, signed);
}

/// What is in the range of a type is the number of its own residue.
pub proof fn number_in_range(x: int, w: u32, signed: bool)
    requires
        signed ==> -size(w) <= 2 * x < size(w),
        !signed ==> 0 <= x < size(w),
    ensures
        0 <= x % size(w) < size(w),
        number((x % size(w)) as nat, w, signed) == x,
{
    let m = size(w);
    lemma_pow2_pos(w as nat);
    lemma_mod_bound(x, m);
    if x >= 0 {
        lemma_small_mod(x as nat, m as nat);
    } else {
        lemma_small_mod((x + m) as nat, m as nat);
        lemma_mod_multiples_vanish(1, x, m);
        assert(x + m * 1 == x + m) by (nonlinear_arith);
    }
}

} // verus!
