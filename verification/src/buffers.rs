//! Buffers that fill up: what is asked of a send into a buffered channel is whether as many
//! values as the buffer holds were sent before it.

use vstd::prelude::*;
use vstd::arithmetic::div_mod::lemma_small_mod;
use vstd::arithmetic::power2::lemma2_to64;
use crate::effects::{resolved, LocV};
use crate::encode::EncodedV;
use crate::graph::reaches_plus;
use crate::ir::{ConstVal, Function, Instr, MakeKind, Op, ValueId, ValueKind};
use crate::leak::{
    buffer_full, capacity, chan_def, leads_to, pending, sends_before, sends_in, sends_of,
};
use crate::nilness::proper;
use crate::shared::{assigned_from, behind, canonical};
use crate::term::{Sort, TermV};
use crate::values::{holds, size, value, Env, Value};

verus! {

// ---- Counting ----

/// Whether an instruction sends on `l`.
pub open spec fn sends(f: &Function, x: Instr, l: LocV) -> bool {
    x.op matches Op::Send { chan, .. } && resolved(f, chan) == l
}

/// The sends of a block before some place are the instructions there that send.
pub proof fn sends_are_counted(f: &Function, b: int, l: LocV, i: int)
    requires
        0 <= i <= f.blocks@[b].instrs@.len(),
    ensures
        sends_in(f, b, l, i) == f.blocks@[b].instrs@.take(i).filter(
            |x: Instr| sends(f, x, l),
        ).len(),
    decreases i,
{
    reveal(Seq::filter);
    let s = f.blocks@[b].instrs@;
    if i > 0 {
        sends_are_counted(f, b, l, i - 1);
        assert(s.take(i).drop_last() =~= s.take(i - 1));
        assert(s.take(i).last() == s[i - 1]);
    }
}

/// How many values are sent on `l` before instruction `instr` of `block`: in the block itself,
/// and in those of the blocks below `b` that are reached and from which control comes to it.
pub open spec fn sent(
    f: &Function,
    e: EncodedV,
    l: LocV,
    block: int,
    instr: int,
    b: int,
    env: Env,
) -> nat
    decreases b,
{
    if b <= 0 {
        sends_before(f, block, l, instr)
    } else {
        sent(f, e, l, block, instr, b - 1, env) + (if b - 1 != block && reaches_plus(
            e.dag,
            b - 1,
            block,
        ) && (e.guard(b - 1) matches Some(g) && holds(g, env)) {
            sends_of(f, b - 1, l)
        } else {
            0
        })
    }
}

proof fn lemma_pending(
    f: &Function,
    e: EncodedV,
    l: LocV,
    block: int,
    instr: int,
    b: int,
    env: Env,
)
    ensures
        pending(f, e, l, block, instr, b) matches Some((t, total)) ==> {
            &&& t.sort() == Sort::BitVec(32)
            &&& total <= u32::MAX
            &&& sent(f, e, l, block, instr, b, env) <= total
            &&& value(t, env) == Value::Bits(sent(f, e, l, block, instr, b, env))
        },
    decreases b,
{
    lemma2_to64();
    if b <= 0 {
        let own = sends_before(f, block, l, instr);
        if own <= u32::MAX {
            lemma_small_mod(own, size(32) as nat);
        }
    } else {
        lemma_pending(f, e, l, block, instr, b - 1, env);
        if let Some((t, total)) = pending(f, e, l, block, instr, b - 1) {
            let n = sends_of(f, b - 1, l);
            if leads_to(e.dag, b - 1, block) && n != 0 && total + n <= u32::MAX {
                if let Some(g) = e.guard(b - 1) {
                    reveal_with_fuel(value, 3);
                    let lit = TermV::BvLit(32, n as u128);
                    let zero = TermV::BvLit(32, 0);
                    lemma_small_mod(n, size(32) as nat);
                    lemma_small_mod(0, size(32) as nat);
                    assert(value(lit, env) == Value::Bits(n));
                    assert(value(zero, env) == Value::Bits(0));
                    let k = sent(f, e, l, block, instr, b, env);
                    lemma_small_mod(k, size(32) as nat);
                }
            }
        }
    }
}

/// What is asked of a send into a buffer is whether it is full: whether no fewer values were
/// sent before than it holds.
pub proof fn full_buffers_hold_their_capacity(
    f: &Function,
    e: EncodedV,
    l: LocV,
    block: int,
    instr: int,
    cap: u64,
    env: Env,
)
    ensures
        buffer_full(f, e, l, block, instr, cap) matches Some(t) ==> (holds(t, env) <==> sent(
            f,
            e,
            l,
            block,
            instr,
            e.dag.len() as int,
            env,
        ) >= cap),
{
    if buffer_full(f, e, l, block, instr, cap) is Some {
        reveal_with_fuel(value, 3);
        lemma2_to64();
        lemma_pending(f, e, l, block, instr, e.dag.len() as int, env);
        lemma_small_mod(cap as nat, size(32) as nat);
    }
}

proof fn lemma_pending_some(
    f: &Function,
    e: EncodedV,
    l: LocV,
    block: int,
    instr: int,
    b: int,
    env: Env,
)
    requires
        proper(e),
        0 <= b <= e.guards.len(),
        all_sends(f, l, block, instr, b) <= u32::MAX,
    ensures
        pending(f, e, l, block, instr, b) matches Some((t, total)) && total <= all_sends(
            f,
            l,
            block,
            instr,
            b,
        ),
    decreases b,
{
    if b > 0 {
        lemma_pending_some(f, e, l, block, instr, b - 1, env);
        lemma_pending(f, e, l, block, instr, b - 1, env);
        assert(e.guards[b - 1].sort() == Sort::Bool);
    }
}

/// All sends on `l` in the blocks below `b` and in `block` before `instr`.
pub open spec fn all_sends(f: &Function, l: LocV, block: int, instr: int, b: int) -> nat
    decreases b,
{
    if b <= 0 {
        sends_before(f, block, l, instr)
    } else {
        all_sends(f, l, block, instr, b - 1) + sends_of(f, b - 1, l)
    }
}

/// A send into a buffer can be judged where neither the capacity nor the number of sends leaves
/// 32 bits.
pub proof fn small_buffers_are_judged(
    f: &Function,
    e: EncodedV,
    l: LocV,
    block: int,
    instr: int,
    cap: u64,
    env: Env,
)
    requires
        proper(e),
        e.guards.len() == e.dag.len(),
        cap <= u32::MAX,
        all_sends(f, l, block, instr, e.dag.len() as int) <= u32::MAX,
    ensures
        buffer_full(f, e, l, block, instr, cap) is Some,
{
    lemma_pending_some(f, e, l, block, instr, e.dag.len() as int, env);
    lemma_pending(f, e, l, block, instr, e.dag.len() as int, env);
}

// ---- Capacities ----

/// Whether an instruction assigns another value to `v`.
pub open spec fn assigns(op: Op, v: ValueId) -> bool {
    op matches Op::Assign { dst, src } && dst == v && src != v
}

proof fn lemma_unassigned(f: &Function, v: ValueId, k: int)
    requires
        0 <= k,
        forall|j: int|
            k <= j < f.sites().len() ==> !assigns(f.op_at(#[trigger] f.sites()[j]), v),
    ensures
        assigned_from(f, v, k) is None,
    decreases f.sites().len() - k,
{
    if k < f.sites().len() {
        assert(!assigns(f.op_at(f.sites()[k]), v));
        lemma_unassigned(f, v, k + 1);
    }
}

proof fn lemma_first_assigned(f: &Function, v: ValueId, from: int, k: int, src: ValueId)
    requires
        0 <= from <= k < f.sites().len(),
        f.op_at(f.sites()[k]) == (Op::Assign { dst: v, src }),
        src != v,
        forall|j: int| from <= j < k ==> !assigns(f.op_at(#[trigger] f.sites()[j]), v),
    ensures
        assigned_from(f, v, from) == Some(src),
    decreases k - from,
{
    if from < k {
        assert(!assigns(f.op_at(f.sites()[from]), v));
        lemma_first_assigned(f, v, from + 1, k, src);
    }
}

/// A value that nothing is assigned to is itself; a copy is what its original is a copy of, as
/// long as no chain of copies is longer than is followed.
pub proof fn copies_are_their_originals(f: &Function, v: ValueId, src: ValueId, k: int)
    ensures
        (forall|j: int|
            0 <= j < f.sites().len() ==> !assigns(f.op_at(#[trigger] f.sites()[j]), v))
            ==> canonical(f, v) == v,
        0 <= k < f.sites().len() && f.op_at(f.sites()[k]) == (Op::Assign { dst: v, src }) && src != v
            && (forall|j: int| 0 <= j < k ==> !assigns(f.op_at(#[trigger] f.sites()[j]), v)) && (
        forall|j: int|
            0 <= j < f.sites().len() ==> !assigns(f.op_at(#[trigger] f.sites()[j]), src))
            ==> canonical(f, v) == src,
{
    reveal_with_fuel(behind, 3);
    if forall|j: int|
        0 <= j < f.sites().len() ==> !assigns(f.op_at(#[trigger] f.sites()[j]), v) {
        lemma_unassigned(f, v, 0);
    }
    if 0 <= k < f.sites().len() && f.op_at(f.sites()[k]) == (Op::Assign { dst: v, src }) && src != v
        && (forall|j: int| 0 <= j < k ==> !assigns(f.op_at(#[trigger] f.sites()[j]), v)) && (forall|
        j: int,
    |
        0 <= j < f.sites().len() ==> !assigns(f.op_at(#[trigger] f.sites()[j]), src)) {
        lemma_first_assigned(f, v, 0, k, src);
        lemma_unassigned(f, src, 0);
    }
}

/// Whether an instruction makes `v` as a channel or allocates it.
pub open spec fn introduces(op: Op, v: ValueId) -> bool {
    match op {
        Op::Make { dst, kind, .. } => kind == MakeKind::Chan && dst == v,
        Op::Alloc { dst, .. } => dst == v,
        _ => false,
    }
}

proof fn lemma_first_def(f: &Function, v: ValueId, from: int, k: int)
    requires
        0 <= from <= k < f.sites().len(),
        introduces(f.op_at(f.sites()[k]), v),
        forall|j: int| from <= j < k ==> !introduces(f.op_at(#[trigger] f.sites()[j]), v),
    ensures
        chan_def(f, v, from) == Some(f.sites()[k]),
    decreases k - from,
{
    if from < k {
        assert(!introduces(f.op_at(f.sites()[from]), v));
        lemma_first_def(f, v, from + 1, k);
    }
}

/// A channel that is made with a constant capacity has that capacity; a channel of any other
/// capacity has none that is known.
pub proof fn channels_have_the_capacity_they_are_made_with(
    f: &Function,
    v: ValueId,
    k: int,
    args: Vec<ValueId>,
)
    requires
        0 <= k < f.sites().len(),
        f.op_at(f.sites()[k]) == (Op::Make { dst: v, kind: MakeKind::Chan, args }),
        forall|j: int| 0 <= j < k ==> !introduces(f.op_at(#[trigger] f.sites()[j]), v),
        args@.len() > 0,
        forall|j: int|
            0 <= j < f.sites().len() ==> !assigns(f.op_at(#[trigger] f.sites()[j]), args@[0]),
    ensures
        match f.kind_of(args@[0]) {
            ValueKind::Const(ConstVal::Int(n)) => match capacity(f, v) {
                Some(c) => n >= 0 && c == n,
                None => n < 0,
            },
            _ => capacity(f, v) is None,
        },
{
    lemma_first_def(f, v, 0, k);
    copies_are_their_originals(f, args@[0], v, k);
}

} // verus!
