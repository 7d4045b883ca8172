//! Who has a channel: which values are the channel or hold it, and which instructions let it
//! out of the function.

use vstd::prelude::*;
use crate::blocking::{lemma_in_both, lemma_in_opt};
use crate::encode::opt_seq;
use crate::escape::{
    any_carries, arm_sends, callee_carries, capture_flow, carries, chan_flow, chan_in, closure_flow,
    closure_in, escaping, lets_out, may_be, may_hold, reads_of,
};
use crate::executions::among;
use crate::ir::{Callee, Function, Op, SelectArm, ValueId};

verus! {

// ---- Carriers ----

/// Whether an instruction makes `to` a copy of `from`: by loading from it as a cell, by
/// assigning or converting it, or by merging it with others.
pub open spec fn hands_on(op: Op, from: ValueId, to: ValueId) -> bool {
    match op {
        Op::Load { dst, addr } => dst == to && addr == from,
        Op::Assign { dst, src } => dst == to && src == from,
        Op::Convert { dst, src } => dst == to && src == from,
        Op::Phi { dst, edges } => dst == to && among(edges@, from),
        _ => false,
    }
}

/// Whether an instruction stores `val` in `cell`.
pub open spec fn puts_in(op: Op, cell: ValueId, val: ValueId) -> bool {
    op == (Op::Store { addr: cell, val })
}

/// Whether an instruction makes `to` a closure that captures `from`.
pub open spec fn closes_over(op: Op, from: ValueId, to: ValueId) -> bool {
    op matches Op::MakeClosure { dst, bindings, .. } && dst == to && among(bindings@, from)
}

/// Whether `chans` and `holders` are closed under what the instructions do: copies of a channel
/// are the channel, and so is what is stored in its cell; closures over a channel or over a
/// holder hold it, and so do copies of a holder.
pub open spec fn closed(f: &Function, chans: Set<ValueId>, holders: Set<ValueId>) -> bool {
    forall|j: int, u: ValueId, v: ValueId|
        #![trigger hands_on(f.op_at(f.sites()[j]), u, v)]
        #![trigger puts_in(f.op_at(f.sites()[j]), u, v)]
        #![trigger closes_over(f.op_at(f.sites()[j]), u, v)]
        0 <= j < f.sites().len() ==> {
            let op = f.op_at(f.sites()[j]);
            &&& chans.contains(u) && (hands_on(op, u, v) || puts_in(op, u, v)) ==> chans.contains(v)
            &&& holders.contains(u) && (hands_on(op, u, v) || closes_over(op, u, v))
                ==> holders.contains(v)
            &&& chans.contains(u) && closes_over(op, u, v) ==> holders.contains(v)
        }
}

proof fn lemma_flows(f: &Function, j: int, u: ValueId, v: ValueId)
    ensures
        chan_flow(f, j, u, v) == (hands_on(f.op_at(f.sites()[j]), u, v) || puts_in(
            f.op_at(f.sites()[j]),
            u,
            v,
        )),
        closure_flow(f, j, u, v) == (hands_on(f.op_at(f.sites()[j]), u, v) || closes_over(
            f.op_at(f.sites()[j]),
            u,
            v,
        )),
        capture_flow(f, j, u, v) == closes_over(f.op_at(f.sites()[j]), u, v),
{
    match f.op_at(f.sites()[j]) {
        Op::Phi { dst, edges } => {
            assert(edges@.contains(u) == among(edges@, u));
        },
        Op::MakeClosure { dst, bindings, .. } => {
            assert(bindings@.contains(u) == among(bindings@, u));
        },
        _ => {},
    }
}

/// What carries a channel is closed under what the instructions do, and holds the channel.
pub proof fn carriers_are_closed(f: &Function, ch: ValueId)
    ensures
        may_be(f, ch, ch),
        closed(
            f,
            Set::new(|v: ValueId| may_be(f, ch, v)),
            Set::new(|v: ValueId| may_hold(f, ch, v)),
        ),
{
    assert(chan_in(f, ch, ch, 0));
    let chans = Set::new(|v: ValueId| may_be(f, ch, v));
    let holders = Set::new(|v: ValueId| may_hold(f, ch, v));
    assert forall|j: int, u: ValueId, v: ValueId|
        #![trigger hands_on(f.op_at(f.sites()[j]), u, v)]
        #![trigger puts_in(f.op_at(f.sites()[j]), u, v)]
        #![trigger closes_over(f.op_at(f.sites()[j]), u, v)]
        0 <= j < f.sites().len() implies {
        let op = f.op_at(f.sites()[j]);
        &&& chans.contains(u) && (hands_on(op, u, v) || puts_in(op, u, v)) ==> chans.contains(v)
        &&& holders.contains(u) && (hands_on(op, u, v) || closes_over(op, u, v)) ==> holders.contains(
            v,
        )
        &&& chans.contains(u) && closes_over(op, u, v) ==> holders.contains(v)
    } by {
        lemma_flows(f, j, u, v);
        if chans.contains(u) {
            let k = choose|k: nat| #[trigger] chan_in(f, ch, u, k);
            if chan_flow(f, j, u, v) {
                assert(chan_in(f, ch, v, k + 1));
            }
            if capture_flow(f, j, u, v) {
                assert(closure_in(f, ch, v, k + 1));
            }
        }
        if holders.contains(u) && closure_flow(f, j, u, v) {
            let k = choose|k: nat| #[trigger] closure_in(f, ch, u, k);
            assert(closure_in(f, ch, v, k + 1));
        }
    }
}

proof fn lemma_least(
    f: &Function,
    ch: ValueId,
    chans: Set<ValueId>,
    holders: Set<ValueId>,
    v: ValueId,
    k: nat,
)
    requires
        chans.contains(ch),
        closed(f, chans, holders),
    ensures
        chan_in(f, ch, v, k) ==> chans.contains(v),
        closure_in(f, ch, v, k) ==> holders.contains(v),
    decreases k,
{
    if k > 0 {
        let b = (k - 1) as nat;
        lemma_least(f, ch, chans, holders, v, b);
        if chan_in(f, ch, v, k) && !chan_in(f, ch, v, b) {
            let (j, u) = choose|j: int, u: ValueId|
                0 <= j < f.sites().len() && chan_in(f, ch, u, b) && #[trigger] chan_flow(f, j, u, v);
            lemma_flows(f, j, u, v);
            lemma_least(f, ch, chans, holders, u, b);
            assert(hands_on(f.op_at(f.sites()[j]), u, v) || puts_in(f.op_at(f.sites()[j]), u, v));
        }
        if closure_in(f, ch, v, k) && !closure_in(f, ch, v, b) {
            if exists|j: int, u: ValueId|
                0 <= j < f.sites().len() && closure_in(f, ch, u, b) && #[trigger] closure_flow(
                    f,
                    j,
                    u,
                    v,
                ) {
                let (j, u) = choose|j: int, u: ValueId|
                    0 <= j < f.sites().len() && closure_in(f, ch, u, b) && #[trigger] closure_flow(
                        f,
                        j,
                        u,
                        v,
                    );
                lemma_flows(f, j, u, v);
                lemma_least(f, ch, chans, holders, u, b);
                assert(hands_on(f.op_at(f.sites()[j]), u, v) || closes_over(
                    f.op_at(f.sites()[j]),
                    u,
                    v,
                ));
            } else {
                let (j, u) = choose|j: int, u: ValueId|
                    0 <= j < f.sites().len() && chan_in(f, ch, u, b) && #[trigger] capture_flow(
                        f,
                        j,
                        u,
                        v,
                    );
                lemma_flows(f, j, u, v);
                lemma_least(f, ch, chans, holders, u, b);
                assert(closes_over(f.op_at(f.sites()[j]), u, v));
            }
        }
    }
}

/// Nothing else carries it: whatever is closed and has the channel has all that carries it.
pub proof fn nothing_else_carries(
    f: &Function,
    ch: ValueId,
    chans: Set<ValueId>,
    holders: Set<ValueId>,
    v: ValueId,
)
    requires
        chans.contains(ch),
        closed(f, chans, holders),
    ensures
        may_be(f, ch, v) ==> chans.contains(v),
        may_hold(f, ch, v) ==> holders.contains(v),
{
    if may_be(f, ch, v) {
        let k = choose|k: nat| #[trigger] chan_in(f, ch, v, k);
        lemma_least(f, ch, chans, holders, v, k);
    }
    if may_hold(f, ch, v) {
        let k = choose|k: nat| #[trigger] closure_in(f, ch, v, k);
        lemma_least(f, ch, chans, holders, v, k);
    }
}

// ---- Ways out ----

/// Whether a callee is called through the value `v`.
pub open spec fn through(c: Callee, v: ValueId) -> bool {
    c == (Callee::Dynamic { value: v })
}

/// Whether `c` is the builtin `name`.
pub open spec fn is_builtin(c: Callee, name: Seq<char>) -> bool {
    c matches Callee::Builtin(n) && n@ == name
}

/// Whether a select sends `v`.
pub open spec fn sends_away(arms: Seq<SelectArm>, v: ValueId) -> bool {
    exists|i: int| 0 <= i < arms.len() && (#[trigger] arms[i]).send == Some(v)
}

/// Whether an instruction gives `v` away. Copying and capturing do not, nor do operations on
/// `v` as a channel. A value is given away by being stored outside its own cells, sent,
/// returned, called, passed to a function (but for `close`, `len` and `cap`; and in a
/// goroutine or a deferred call, for functions called by name and `close`), or used in any
/// other way.
pub open spec fn gives_away(f: &Function, ch: ValueId, op: Op, v: ValueId) -> bool {
    match op {
        Op::Load { .. } | Op::Assign { .. } | Op::Convert { .. } | Op::Phi { .. } => false,
        Op::MakeClosure { .. } | Op::Recv { .. } | Op::CloseChan { .. } => false,
        Op::Alloc { .. } | Op::Jump | Op::Havoc { .. } => false,
        Op::Store { addr, val } => v == val && !carries(f, ch, addr),
        Op::Send { val, .. } => v == val,
        Op::Select { arms, .. } => sends_away(arms@, v),
        Op::Call { callee, args, .. } => through(callee, v) || (among(args@, v) && !is_builtin(
            callee,
            "close"@,
        ) && !is_builtin(callee, "len"@) && !is_builtin(callee, "cap"@)),
        Op::Go { callee, args } => through(callee, v) || (among(args@, v) && !(callee is Static)
            && !is_builtin(callee, "close"@)),
        Op::Defer { callee, args } => through(callee, v) || (among(args@, v) && !(callee is Static)
            && !is_builtin(callee, "close"@)),
        Op::Return { vals } => among(vals@, v),
        Op::Panic { val } => v == val,
        Op::Branch { cond } => v == cond,
        Op::Lock { mu, .. } => v == mu,
        Op::MakeInterface { src, .. } => v == src,
        Op::TypeAssert { src, .. } => v == src,
        Op::Make { args, .. } => among(args@, v),
        Op::FieldAddr { base, .. } => v == base,
        Op::Field { base, .. } => v == base,
        Op::IndexAddr { base, index, .. } => v == base || v == index,
        Op::Index { base, index, .. } => v == base || v == index,
        Op::Lookup { map, key, .. } => v == map || v == key,
        Op::Slice { base, low, high, max, .. } => v == base || low == Some(v) || high == Some(v)
            || max == Some(v),
        Op::BinOp { lhs, rhs, .. } => v == lhs || v == rhs,
        Op::UnOp { operand, .. } => v == operand,
        Op::Extract { tuple, .. } => v == tuple,
    }
}

proof fn lemma_any(f: &Function, ch: ValueId, vs: Seq<ValueId>)
    ensures
        any_carries(f, ch, vs) == exists|v: ValueId| #[trigger] carries(f, ch, v) && among(vs, v),
{
    if any_carries(f, ch, vs) {
        let i = choose|i: int| 0 <= i < vs.len() && carries(f, ch, #[trigger] vs[i]);
        assert(among(vs, vs[i]));
    }
    if exists|v: ValueId| #[trigger] carries(f, ch, v) && among(vs, v) {
        let v = choose|v: ValueId| #[trigger] carries(f, ch, v) && among(vs, v);
        let i = choose|i: int| 0 <= i < vs.len() && #[trigger] vs[i] == v;
        assert(carries(f, ch, vs[i]));
    }
}

/// Whether `op` is one of those that any reading of a channel lets out.
spec fn plain(op: Op) -> bool {
    match op {
        Op::Load { .. } | Op::Assign { .. } | Op::Convert { .. } | Op::Phi { .. } => false,
        Op::MakeClosure { .. } | Op::Recv { .. } | Op::CloseChan { .. } => false,
        Op::Store { .. } | Op::Send { .. } | Op::Select { .. } => false,
        Op::Call { .. } | Op::Go { .. } | Op::Defer { .. } => false,
        _ => true,
    }
}

proof fn lemma_reads(f: &Function, ch: ValueId, op: Op, v: ValueId)
    requires
        plain(op),
    ensures
        among(reads_of(op), v) == gives_away(f, ch, op, v),
{
    let s = reads_of(op);
    assert(among(s, v) == s.contains(v));
    match op {
        Op::Slice { base, low, high, max, .. } => {
            let a = seq![base];
            lemma_in_both(a, opt_seq(low), v);
            lemma_in_both(a + opt_seq(low), opt_seq(high), v);
            lemma_in_both(a + opt_seq(low) + opt_seq(high), opt_seq(max), v);
            lemma_in_opt(low, v);
            lemma_in_opt(high, v);
            lemma_in_opt(max, v);
            assert(a.contains(v) == (v == base)) by {
                assert(a[0] == base);
            }
        },
        _ => {
            if s.len() >= 1 {
                assert(s.contains(s[0]));
            }
            if s.len() >= 2 {
                assert(s.contains(s[1]));
            }
            if s.contains(v) {
                let i = choose|i: int| 0 <= i < s.len() && s[i] == v;
                assert(s[i] == v);
            }
        },
    }
}

proof fn lemma_lets_out(f: &Function, ch: ValueId, op: Op)
    ensures
        lets_out(f, ch, op) == exists|v: ValueId| #[trigger]
            carries(f, ch, v) && gives_away(f, ch, op, v),
{
    match op {
        Op::Call { callee, args, .. } => {
            lemma_any(f, ch, args@);
            if callee_carries(f, ch, callee) {
                assert(carries(f, ch, callee->value));
            }
        },
        Op::Go { callee, args } => {
            lemma_any(f, ch, args@);
            if callee_carries(f, ch, callee) {
                assert(carries(f, ch, callee->value));
            }
        },
        Op::Defer { callee, args } => {
            lemma_any(f, ch, args@);
            if callee_carries(f, ch, callee) {
                assert(carries(f, ch, callee->value));
            }
        },
        Op::Select { arms, .. } => {
            if arm_sends(f, ch, arms@) {
                let i = choose|i: int|
                    0 <= i < arms@.len() && ((#[trigger] arms@[i]).send matches Some(s) && carries(
                        f,
                        ch,
                        s,
                    ));
                let v = arms@[i].send.unwrap();
                assert(carries(f, ch, v) && sends_away(arms@, v));
            }
            if exists|v: ValueId| #[trigger] carries(f, ch, v) && sends_away(arms@, v) {
                let v = choose|v: ValueId| #[trigger] carries(f, ch, v) && sends_away(arms@, v);
                let i = choose|i: int| 0 <= i < arms@.len() && (#[trigger] arms@[i]).send == Some(v);
                assert(arms@[i].send == Some(v));
            }
        },
        Op::Store { addr, val } => {},
        Op::Send { chan, val } => {},
        _ => {
            if plain(op) {
                lemma_any(f, ch, reads_of(op));
                assert forall|v: ValueId| #[trigger] carries(f, ch, v) implies among(reads_of(op), v)
                    == gives_away(f, ch, op, v) by {
                    lemma_reads(f, ch, op, v);
                }
            }
        },
    }
}

/// A channel escapes exactly if some instruction gives away a value that is the channel or
/// holds it.
pub proof fn channels_escape_where_they_are_given_away(f: &Function, ch: ValueId)
    ensures
        escaping(f, ch) <==> exists|j: int, v: ValueId|
            0 <= j < f.sites().len() && carries(f, ch, v) && #[trigger] gives_away(
                f,
                ch,
                f.op_at(f.sites()[j]),
                v,
            ),
{
    if escaping(f, ch) {
        let j = choose|j: int|
            0 <= j < f.sites().len() && lets_out(f, ch, f.op_at(#[trigger] f.sites()[j]));
        let op = f.op_at(f.sites()[j]);
        lemma_lets_out(f, ch, op);
        let v = choose|v: ValueId| #[trigger] carries(f, ch, v) && gives_away(f, ch, op, v);
        assert(gives_away(f, ch, f.op_at(f.sites()[j]), v));
    }
    if exists|j: int, v: ValueId|
        0 <= j < f.sites().len() && carries(f, ch, v) && #[trigger] gives_away(
            f,
            ch,
            f.op_at(f.sites()[j]),
            v,
        ) {
        let (j, v) = choose|j: int, v: ValueId|
            0 <= j < f.sites().len() && carries(f, ch, v) && #[trigger] gives_away(
                f,
                ch,
                f.op_at(f.sites()[j]),
                v,
            );
        lemma_lets_out(f, ch, f.op_at(f.sites()[j]));
        assert(f.sites()[j] == f.sites()[j]);
    }
}

} // verus!
