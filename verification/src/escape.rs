//! Whether a channel leaves the function that makes it.
//!
//! The walk is strict: a use escapes unless it is known not to.

use vstd::prelude::*;
use crate::encode::opt_seq;
use crate::ir::{same_text, Callee, Function, Op, SelectArm, Site, ValueId};

verus! {

// ---- Reads ----

/// The value that a dynamic callee is.
pub open spec fn callee_read(c: Callee) -> Seq<ValueId> {
    match c {
        Callee::Dynamic { value } => seq![value],
        _ => Seq::empty(),
    }
}

/// What the first `n` arms of a select read: the channel, and the value of a send.
pub open spec fn arm_reads(arms: Seq<SelectArm>, n: int) -> Seq<ValueId>
    decreases n,
{
    if n <= 0 {
        Seq::empty()
    } else {
        arm_reads(arms, n - 1) + seq![arms[n - 1].chan] + opt_seq(arms[n - 1].send)
    }
}

/// Every value that an operation reads.
pub open spec fn reads_of(op: Op) -> Seq<ValueId> {
    match op {
        Op::Assign { src, .. } => seq![src],
        Op::Convert { src, .. } => seq![src],
        Op::Alloc { .. } => Seq::empty(),
        Op::Load { addr, .. } => seq![addr],
        Op::Store { addr, val } => seq![addr, val],
        Op::FieldAddr { base, .. } => seq![base],
        Op::Field { base, .. } => seq![base],
        Op::IndexAddr { base, index, .. } => seq![base, index],
        Op::Index { base, index, .. } => seq![base, index],
        Op::Lookup { map, key, .. } => seq![map, key],
        Op::Slice { base, low, high, max, .. } => seq![base] + opt_seq(low) + opt_seq(high) + opt_seq(
            max,
        ),
        Op::BinOp { lhs, rhs, .. } => seq![lhs, rhs],
        Op::UnOp { operand, .. } => seq![operand],
        Op::Extract { tuple, .. } => seq![tuple],
        Op::Phi { edges, .. } => edges@,
        Op::Call { callee, args, .. } => callee_read(callee) + args@,
        Op::MakeClosure { bindings, .. } => bindings@,
        Op::MakeInterface { src, .. } => seq![src],
        Op::Make { args, .. } => args@,
        Op::Send { chan, val } => seq![chan, val],
        Op::Recv { chan, .. } => seq![chan],
        Op::CloseChan { chan } => seq![chan],
        Op::Select { arms, .. } => arm_reads(arms@, arms@.len() as int),
        Op::Go { callee, args } => callee_read(callee) + args@,
        Op::Defer { callee, args } => callee_read(callee) + args@,
        Op::Return { vals } => vals@,
        Op::Jump => Seq::empty(),
        Op::Branch { cond } => seq![cond],
        Op::Panic { val } => seq![val],
        Op::TypeAssert { src, .. } => seq![src],
        Op::Lock { mu, .. } => seq![mu],
        Op::Havoc { .. } => Seq::empty(),
    }
}

fn one(a: ValueId) -> (r: Vec<ValueId>)
    ensures
        r@ == seq![a],
{
    let mut v: Vec<ValueId> = Vec::new();
    v.push(a);
    assert(v@ =~= seq![a]);
    v
}

fn two(a: ValueId, b: ValueId) -> (r: Vec<ValueId>)
    ensures
        r@ == seq![a, b],
{
    let mut v: Vec<ValueId> = Vec::new();
    v.push(a);
    v.push(b);
    assert(v@ =~= seq![a, b]);
    v
}

fn push_opt(v: &mut Vec<ValueId>, a: Option<ValueId>)
    ensures
        final(v)@ == old(v)@ + opt_seq(a),
{
    let ghost before = v@;
    if let Some(x) = a {
        v.push(x);
    }
    assert(v@ =~= before + opt_seq(a));
}

fn push_all(v: &mut Vec<ValueId>, a: &Vec<ValueId>)
    ensures
        final(v)@ == old(v)@ + a@,
{
    let ghost before = v@;
    let mut i: usize = 0;
    assert(a@.take(0) =~= Seq::<ValueId>::empty());
    assert(before + a@.take(0) =~= before);
    while i < a.len()
        invariant
            i <= a@.len(),
            v@ == before + a@.take(i as int),
        decreases a@.len() - i,
    {
        v.push(a[i]);
        i += 1;
        assert(before + a@.take(i as int) =~= (before + a@.take(i - 1)).push(a@[i - 1]));
    }
    assert(a@.take(i as int) =~= a@);
}

fn callee_reads(c: &Callee) -> (r: Vec<ValueId>)
    ensures
        r@ == callee_read(*c),
{
    match c {
        Callee::Dynamic { value } => one(*value),
        _ => Vec::new(),
    }
}

/// Every value that an operation reads, in the order of its operands.
pub fn op_reads(op: &Op) -> (r: Vec<ValueId>)
    ensures
        r@ == reads_of(*op),
{
    match op {
        Op::Assign { src, .. } => one(*src),
        Op::Convert { src, .. } => one(*src),
        Op::Alloc { .. } => Vec::new(),
        Op::Load { addr, .. } => one(*addr),
        Op::Store { addr, val } => two(*addr, *val),
        Op::FieldAddr { base, .. } => one(*base),
        Op::Field { base, .. } => one(*base),
        Op::IndexAddr { base, index, .. } => two(*base, *index),
        Op::Index { base, index, .. } => two(*base, *index),
        Op::Lookup { map, key, .. } => two(*map, *key),
        Op::Slice { base, low, high, max, .. } => {
            let mut v = one(*base);
            push_opt(&mut v, *low);
            push_opt(&mut v, *high);
            push_opt(&mut v, *max);
            v
        },
        Op::BinOp { lhs, rhs, .. } => two(*lhs, *rhs),
        Op::UnOp { operand, .. } => one(*operand),
        Op::Extract { tuple, .. } => one(*tuple),
        Op::Phi { edges, .. } => {
            let mut v: Vec<ValueId> = Vec::new();
            push_all(&mut v, edges);
            assert(v@ =~= edges@);
            v
        },
        Op::Call { callee, args, .. } => {
            let mut v = callee_reads(callee);
            push_all(&mut v, args);
            v
        },
        Op::MakeClosure { bindings, .. } => {
            let mut v: Vec<ValueId> = Vec::new();
            push_all(&mut v, bindings);
            assert(v@ =~= bindings@);
            v
        },
        Op::MakeInterface { src, .. } => one(*src),
        Op::Make { args, .. } => {
            let mut v: Vec<ValueId> = Vec::new();
            push_all(&mut v, args);
            assert(v@ =~= args@);
            v
        },
        Op::Send { chan, val } => two(*chan, *val),
        Op::Recv { chan, .. } => one(*chan),
        Op::CloseChan { chan } => one(*chan),
        Op::Select { arms, .. } => {
            let mut v: Vec<ValueId> = Vec::new();
            let mut i: usize = 0;
            while i < arms.len()
                invariant
                    i <= arms@.len(),
                    v@ == arm_reads(arms@, i as int),
                decreases arms@.len() - i,
            {
                let ghost before = v@;
                v.push(arms[i].chan);
                assert(v@ =~= before + seq![arms@[i as int].chan]);
                push_opt(&mut v, arms[i].send);
                i += 1;
            }
            v
        },
        Op::Go { callee, args } => {
            let mut v = callee_reads(callee);
            push_all(&mut v, args);
            v
        },
        Op::Defer { callee, args } => {
            let mut v = callee_reads(callee);
            push_all(&mut v, args);
            v
        },
        Op::Return { vals } => {
            let mut v: Vec<ValueId> = Vec::new();
            push_all(&mut v, vals);
            assert(v@ =~= vals@);
            v
        },
        Op::Jump => Vec::new(),
        Op::Branch { cond } => one(*cond),
        Op::Panic { val } => one(*val),
        Op::TypeAssert { src, .. } => one(*src),
        Op::Lock { mu, .. } => one(*mu),
        Op::Havoc { .. } => Vec::new(),
    }
}

// ---- Aliases ----

/// Whether `op` copies `from` to `to`.
pub open spec fn copies(op: Op, from: ValueId, to: ValueId) -> bool {
    match op {
        Op::Load { dst, addr } => addr == from && dst == to,
        Op::Assign { dst, src } => src == from && dst == to,
        Op::Convert { dst, src } => src == from && dst == to,
        Op::Phi { dst, edges } => edges@.contains(from) && dst == to,
        _ => false,
    }
}

/// Whether `op` stores `val` in the cell `cell`.
pub open spec fn fills(op: Op, cell: ValueId, val: ValueId) -> bool {
    op matches Op::Store { addr, val: v } && addr == cell && v == val
}

/// Whether `op` makes the closure `to` over `from`.
pub open spec fn captures(op: Op, from: ValueId, to: ValueId) -> bool {
    op matches Op::MakeClosure { dst, bindings, .. } && bindings@.contains(from) && dst == to
}

/// Whether instruction `j` makes `to` the same channel as `from`.
pub open spec fn chan_flow(f: &Function, j: int, from: ValueId, to: ValueId) -> bool {
    copies(f.op_at(f.sites()[j]), from, to) || fills(f.op_at(f.sites()[j]), from, to)
}

/// Whether instruction `j` makes `to` a closure because `from` is one.
pub open spec fn closure_flow(f: &Function, j: int, from: ValueId, to: ValueId) -> bool {
    copies(f.op_at(f.sites()[j]), from, to) || captures(f.op_at(f.sites()[j]), from, to)
}

/// Whether instruction `j` makes the closure `to` over the channel `from`.
pub open spec fn capture_flow(f: &Function, j: int, from: ValueId, to: ValueId) -> bool {
    captures(f.op_at(f.sites()[j]), from, to)
}

/// Whether `v` is found to be the channel `ch` in at most `k` steps.
pub open spec fn chan_in(f: &Function, ch: ValueId, v: ValueId, k: nat) -> bool
    decreases k,
{
    if k == 0 {
        v == ch
    } else {
        chan_in(f, ch, v, (k - 1) as nat) || exists|j: int, u: ValueId|
            0 <= j < f.sites().len() && chan_in(f, ch, u, (k - 1) as nat) && #[trigger] chan_flow(
                f,
                j,
                u,
                v,
            )
    }
}

/// Whether `v` is found to be a closure over the channel `ch` in at most `k` steps.
pub open spec fn closure_in(f: &Function, ch: ValueId, v: ValueId, k: nat) -> bool
    decreases k,
{
    if k == 0 {
        false
    } else {
        ||| closure_in(f, ch, v, (k - 1) as nat)
        ||| exists|j: int, u: ValueId|
            0 <= j < f.sites().len() && closure_in(f, ch, u, (k - 1) as nat) && #[trigger] closure_flow(
                f,
                j,
                u,
                v,
            )
        ||| exists|j: int, u: ValueId|
            0 <= j < f.sites().len() && chan_in(f, ch, u, (k - 1) as nat) && #[trigger] capture_flow(
                f,
                j,
                u,
                v,
            )
    }
}

/// Whether `v` may be the channel `ch`.
pub open spec fn may_be(f: &Function, ch: ValueId, v: ValueId) -> bool {
    exists|k: nat| #[trigger] chan_in(f, ch, v, k)
}

/// Whether `v` may be a closure over `ch`.
pub open spec fn may_hold(f: &Function, ch: ValueId, v: ValueId) -> bool {
    exists|k: nat| #[trigger] closure_in(f, ch, v, k)
}

/// Whether `v` may be `ch` or hold it.
pub open spec fn carries(f: &Function, ch: ValueId, v: ValueId) -> bool {
    may_be(f, ch, v) || may_hold(f, ch, v)
}

// ---- Escapes ----

/// Whether one of `vs` is `ch` or holds it.
pub open spec fn any_carries(f: &Function, ch: ValueId, vs: Seq<ValueId>) -> bool {
    exists|i: int| 0 <= i < vs.len() && carries(f, ch, #[trigger] vs[i])
}

/// Whether a dynamic callee is `ch` or holds it.
pub open spec fn callee_carries(f: &Function, ch: ValueId, c: Callee) -> bool {
    c matches Callee::Dynamic { value } && carries(f, ch, value)
}

/// Whether an arm sends `ch`, or what holds it.
pub open spec fn arm_sends(f: &Function, ch: ValueId, arms: Seq<SelectArm>) -> bool {
    exists|i: int|
        0 <= i < arms.len() && ((#[trigger] arms[i]).send matches Some(s) && carries(f, ch, s))
}

/// Whether `op` lets `ch` out. Copies only alias it, channel operations only use it, and it
/// may be handed to `close`, `len` and `cap`, and to static callees of `go` and `defer`. Any
/// other use lets it out.
pub open spec fn lets_out(f: &Function, ch: ValueId, op: Op) -> bool {
    match op {
        Op::Load { .. } | Op::Assign { .. } | Op::Convert { .. } | Op::Phi { .. } => false,
        Op::Store { addr, val } => !carries(f, ch, addr) && carries(f, ch, val),
        Op::MakeClosure { .. } => false,
        Op::Send { val, .. } => carries(f, ch, val),
        Op::Recv { .. } | Op::CloseChan { .. } => false,
        Op::Select { arms, .. } => arm_sends(f, ch, arms@),
        Op::Call { callee, args, .. } => callee_carries(f, ch, callee) || (!only_observes(callee)
            && any_carries(f, ch, args@)),
        Op::Go { callee, args } => callee_carries(f, ch, callee) || (!is_static_or_close(callee)
            && any_carries(f, ch, args@)),
        Op::Defer { callee, args } => callee_carries(f, ch, callee) || (!is_static_or_close(callee)
            && any_carries(f, ch, args@)),
        _ => any_carries(f, ch, reads_of(op)),
    }
}

/// Whether a callee is a builtin that only observes a channel.
pub open spec fn only_observes(c: Callee) -> bool {
    c matches Callee::Builtin(name) && (name@ == "close"@ || name@ == "len"@ || name@ == "cap"@)
}

/// Whether a callee is static or `close`.
pub open spec fn is_static_or_close(c: Callee) -> bool {
    c is Static || (c matches Callee::Builtin(name) && name@ == "close"@)
}

/// Whether some instruction lets `ch` out.
pub open spec fn escaping(f: &Function, ch: ValueId) -> bool {
    exists|j: int| 0 <= j < f.sites().len() && lets_out(f, ch, f.op_at(#[trigger] f.sites()[j]))
}

fn has(v: &Vec<ValueId>, x: ValueId) -> (r: bool)
    ensures
        r == v@.contains(x),
{
    let mut i: usize = 0;
    while i < v.len()
        invariant
            i <= v@.len(),
            forall|j: int| 0 <= j < i ==> v@[j] != x,
        decreases v@.len() - i,
    {
        if v[i] == x {
            return true;
        }
        i += 1;
    }
    false
}

/// Whether `a` and `b` have a value in common.
fn meet(a: &Vec<ValueId>, b: &Vec<ValueId>) -> (r: bool)
    ensures
        r == exists|u: ValueId| #[trigger] a@.contains(u) && b@.contains(u),
{
    let mut i: usize = 0;
    while i < a.len()
        invariant
            i <= a@.len(),
            forall|j: int| 0 <= j < i ==> !b@.contains(#[trigger] a@[j]),
        decreases a@.len() - i,
    {
        if has(b, a[i]) {
            assert(a@.contains(a@[i as int]));
            return true;
        }
        i += 1;
    }
    false
}

/// The channels and closures found so far: without repetition, each found by some number of
/// steps, and each the channel itself or what an instruction defines or stores.
spec fn found_so_far(f: &Function, ch: ValueId, chans: Seq<ValueId>, closures: Seq<ValueId>) -> bool {
    &&& chans.no_duplicates()
    &&& closures.no_duplicates()
    &&& chans.contains(ch)
    &&& forall|v: ValueId| #[trigger] chans.contains(v) ==> may_be(f, ch, v) && (v == ch || targets(f).contains(v))
    &&& forall|v: ValueId| #[trigger] closures.contains(v) ==> may_hold(f, ch, v) && targets(f).contains(v)
}

/// The value that instruction `s` may add to the channels or closures.
spec fn target(f: &Function, s: Site) -> ValueId {
    match f.op_at(s) {
        Op::Load { dst, .. } => dst,
        Op::Assign { dst, .. } => dst,
        Op::Convert { dst, .. } => dst,
        Op::Phi { dst, .. } => dst,
        Op::Store { val, .. } => val,
        Op::MakeClosure { dst, .. } => dst,
        _ => ValueId(0),
    }
}

spec fn targets(f: &Function) -> Seq<ValueId> {
    Seq::new(f.sites().len(), |j: int| target(f, f.sites()[j]))
}

/// Whether instruction `j` adds nothing new.
spec fn settled(f: &Function, j: int, chans: Seq<ValueId>, closures: Seq<ValueId>) -> bool {
    &&& forall|u: ValueId, v: ValueId| #[trigger]
        chan_flow(f, j, u, v) && chans.contains(u) ==> chans.contains(v)
    &&& forall|u: ValueId, v: ValueId| #[trigger]
        closure_flow(f, j, u, v) && closures.contains(u) ==> closures.contains(v)
    &&& forall|u: ValueId, v: ValueId| #[trigger]
        capture_flow(f, j, u, v) && chans.contains(u) ==> closures.contains(v)
}

proof fn lemma_bounded(f: &Function, ch: ValueId, chans: Seq<ValueId>, closures: Seq<ValueId>)
    requires
        found_so_far(f, ch, chans, closures),
    ensures
        chans.len() <= f.sites().len() + 1,
        closures.len() <= f.sites().len(),
{
    let t = targets(f);
    let tc = t.push(ch);
    chans.unique_seq_to_set();
    closures.unique_seq_to_set();
    t.lemma_cardinality_of_set();
    tc.lemma_cardinality_of_set();
    assert forall|v: ValueId| #[trigger] chans.to_set().contains(v) implies tc.to_set().contains(v) by {
        assert(chans.contains(v));
        if v == ch {
            assert(tc[t.len() as int] == ch);
        } else {
            let i = choose|i: int| 0 <= i < t.len() && t[i] == v;
            assert(tc[i] == v);
        }
        assert(tc.contains(v));
    }
    assert forall|v: ValueId| #[trigger] closures.to_set().contains(v) implies t.to_set().contains(v) by {
        assert(closures.contains(v));
    }
    vstd::set_lib::lemma_len_subset(chans.to_set(), tc.to_set());
    vstd::set_lib::lemma_len_subset(closures.to_set(), t.to_set());
}

/// Adds `v` to the channels, because `u` is one and instruction `j` makes `v` the same.
fn add_chan(f: &Function, Ghost(ch): Ghost<ValueId>, chans: &mut Vec<ValueId>, v: ValueId, Ghost(closures): Ghost<Seq<ValueId>>, Ghost(j): Ghost<int>, Ghost(u): Ghost<ValueId>) -> (changed: bool)
    requires
        0 <= j < f.sites().len(),
        found_so_far(f, ch, old(chans)@, closures),
        old(chans)@.contains(u),
        chan_flow(f, j, u, v),
        v == target(f, f.sites()[j]),
    ensures
        found_so_far(f, ch, final(chans)@, closures),
        final(chans)@.contains(v),
        changed == !old(chans)@.contains(v),
        changed ==> final(chans)@ == old(chans)@.push(v),
        !changed ==> final(chans)@ == old(chans)@,
{
    if has(chans, v) {
        return false;
    }
    let ghost before = chans@;
    chans.push(v);
    proof {
        assert(may_be(f, ch, u));
        let k = choose|k: nat| #[trigger] chan_in(f, ch, u, k);
        assert(chan_in(f, ch, v, (k + 1) as nat));
        assert(targets(f)[j] == v);
        assert(chans@[before.len() as int] == v);
        let q = choose|q: int| 0 <= q < before.len() && before[q] == ch;
        assert(chans@[q] == ch);
        assert forall|w: ValueId| #[trigger] chans@.contains(w) implies may_be(f, ch, w) && (w == ch
            || targets(f).contains(w)) by {
            if w != v {
                assert(before.contains(w));
            }
        }
    }
    true
}

/// Adds `v` to the closures, because instruction `j` makes it one.
fn add_closure(f: &Function, Ghost(ch): Ghost<ValueId>, closures: &mut Vec<ValueId>, v: ValueId, Ghost(chans): Ghost<Seq<ValueId>>, Ghost(j): Ghost<int>, Ghost(u): Ghost<ValueId>) -> (changed: bool)
    requires
        0 <= j < f.sites().len(),
        found_so_far(f, ch, chans, old(closures)@),
        (old(closures)@.contains(u) && closure_flow(f, j, u, v)) || (chans.contains(u) && capture_flow(
            f,
            j,
            u,
            v,
        )),
        v == target(f, f.sites()[j]),
    ensures
        found_so_far(f, ch, chans, final(closures)@),
        final(closures)@.contains(v),
        changed == !old(closures)@.contains(v),
        changed ==> final(closures)@ == old(closures)@.push(v),
        !changed ==> final(closures)@ == old(closures)@,
{
    if has(closures, v) {
        return false;
    }
    let ghost before = closures@;
    closures.push(v);
    proof {
        if before.contains(u) && closure_flow(f, j, u, v) {
            assert(may_hold(f, ch, u));
            let k = choose|k: nat| #[trigger] closure_in(f, ch, u, k);
            assert(closure_in(f, ch, v, (k + 1) as nat));
        } else {
            assert(may_be(f, ch, u));
            let k = choose|k: nat| #[trigger] chan_in(f, ch, u, k);
            assert(closure_in(f, ch, v, (k + 1) as nat));
        }
        assert(targets(f)[j] == v);
        assert(closures@[before.len() as int] == v);
        assert forall|w: ValueId| #[trigger] closures@.contains(w) implies may_hold(f, ch, w)
            && targets(f).contains(w) by {
            if w != v {
                assert(before.contains(w));
            }
        }
    }
    true
}

/// The sources from which `op` copies to its result, and the result.
fn copy_sources(op: &Op) -> (r: Option<(Vec<ValueId>, ValueId)>)
    ensures
        match r {
            Some((from, to)) => (forall|u: ValueId, v: ValueId| #[trigger]
                copies(*op, u, v) == (from@.contains(u) && v == to)) && (op is Load || op is Assign || op is Convert || op is Phi),
            None => forall|u: ValueId, v: ValueId| !#[trigger] copies(*op, u, v),
        },
        r matches Some((_, to)) ==> forall|f: &Function, s: Site| f.op_at(s) == *op ==> #[trigger] target(f, s) == to,
{
    match op {
        Op::Load { dst, addr } => {
            let v = one(*addr);
            assert(v@[0] == *addr);
            Some((v, *dst))
        },
        Op::Assign { dst, src } => {
            let v = one(*src);
            assert(v@[0] == *src);
            Some((v, *dst))
        },
        Op::Convert { dst, src } => {
            let v = one(*src);
            assert(v@[0] == *src);
            Some((v, *dst))
        },
        Op::Phi { dst, edges } => {
            let mut v: Vec<ValueId> = Vec::new();
            push_all(&mut v, edges);
            assert(v@ =~= edges@);
            Some((v, *dst))
        },
        _ => None,
    }
}

/// Lets instruction `j` add what it adds.
fn follow(f: &Function, Ghost(ch): Ghost<ValueId>, s: Site, Ghost(j): Ghost<int>, chans: &mut Vec<ValueId>, closures: &mut Vec<ValueId>) -> (changed: bool)
    requires
        0 <= j < f.sites().len(),
        s == f.sites()[j],
        f.has_site(s),
        found_so_far(f, ch, old(chans)@, old(closures)@),
    ensures
        found_so_far(f, ch, final(chans)@, final(closures)@),
        !changed ==> final(chans)@ == old(chans)@ && final(closures)@ == old(closures)@,
        !changed ==> settled(f, j, final(chans)@, final(closures)@),
        changed ==> final(chans)@.len() + final(closures)@.len() > old(chans)@.len() + old(closures)@.len(),
        final(chans)@.len() >= old(chans)@.len(),
        final(closures)@.len() >= old(closures)@.len(),
{
    let op = f.op(s);
    let ghost c0 = chans@;
    let ghost d0 = closures@;
    let mut changed = false;
    match copy_sources(op) {
        Some((from, to)) => {
            assert(target(f, s) == to);
            if meet(&from, chans) {
                let ghost u = choose|u: ValueId| #[trigger] from@.contains(u) && chans@.contains(u);
                assert(chan_flow(f, j, u, to)) by {
                    assert(copies(*op, u, to));
                }
                if add_chan(f, Ghost(ch), chans, to, Ghost(closures@), Ghost(j), Ghost(u)) {
                    changed = true;
                }
            }
            if meet(&from, closures) {
                let ghost u = choose|u: ValueId| #[trigger] from@.contains(u) && closures@.contains(u);
                assert(closure_flow(f, j, u, to)) by {
                    assert(copies(*op, u, to));
                }
                if add_closure(f, Ghost(ch), closures, to, Ghost(chans@), Ghost(j), Ghost(u)) {
                    changed = true;
                }
            }
            proof {
                if !changed {
                    assert forall|u: ValueId, v: ValueId| #[trigger]
                        chan_flow(f, j, u, v) && chans@.contains(u) implies chans@.contains(v) by {
                        assert(copies(*op, u, v));
                    }
                    assert forall|u: ValueId, v: ValueId| #[trigger]
                        closure_flow(f, j, u, v) && closures@.contains(u) implies closures@.contains(v) by {
                        assert(copies(*op, u, v));
                    }
                }
            }
        },
        None => {
            match op {
                Op::Store { addr, val } => {
                    if has(chans, *addr) {
                        if add_chan(f, Ghost(ch), chans, *val, Ghost(closures@), Ghost(j), Ghost(*addr)) {
                            changed = true;
                        }
                    }
                },
                Op::MakeClosure { dst, bindings, .. } => {
                    let by_chan = meet(bindings, chans);
                    let by_closure = meet(bindings, closures);
                    if by_chan {
                        let ghost u = choose|u: ValueId| #[trigger]
                            bindings@.contains(u) && chans@.contains(u);
                        if add_closure(f, Ghost(ch), closures, *dst, Ghost(chans@), Ghost(j), Ghost(u)) {
                            changed = true;
                        }
                    } else if by_closure {
                        let ghost u = choose|u: ValueId| #[trigger]
                            bindings@.contains(u) && closures@.contains(u);
                        if add_closure(f, Ghost(ch), closures, *dst, Ghost(chans@), Ghost(j), Ghost(u)) {
                            changed = true;
                        }
                    }
                },
                _ => {},
            }
            proof {
                if !changed {
                    assert forall|u: ValueId, v: ValueId| #[trigger]
                        chan_flow(f, j, u, v) && chans@.contains(u) implies chans@.contains(v) by {
                        assert(!copies(*op, u, v));
                    }
                    assert forall|u: ValueId, v: ValueId| #[trigger]
                        closure_flow(f, j, u, v) && closures@.contains(u) implies closures@.contains(v) by {
                        assert(!copies(*op, u, v));
                    }
                }
            }
        },
    }
    changed
}

proof fn lemma_complete(f: &Function, ch: ValueId, chans: Seq<ValueId>, closures: Seq<ValueId>, k: nat)
    requires
        chans.contains(ch),
        forall|j: int| 0 <= j < f.sites().len() ==> #[trigger] settled(f, j, chans, closures),
    ensures
        forall|v: ValueId| #[trigger] chan_in(f, ch, v, k) ==> chans.contains(v),
        forall|v: ValueId| #[trigger] closure_in(f, ch, v, k) ==> closures.contains(v),
    decreases k,
{
    if k > 0 {
        let m = (k - 1) as nat;
        lemma_complete(f, ch, chans, closures, m);
        assert forall|v: ValueId| #[trigger] chan_in(f, ch, v, k) implies chans.contains(v) by {
            if !chan_in(f, ch, v, m) {
                let (j, u) = choose|j: int, u: ValueId|
                    0 <= j < f.sites().len() && chan_in(f, ch, u, m) && #[trigger] chan_flow(f, j, u, v);
                assert(settled(f, j, chans, closures));
                assert(chans.contains(u));
            }
        }
        assert forall|v: ValueId| #[trigger] closure_in(f, ch, v, k) implies closures.contains(v) by {
            if !closure_in(f, ch, v, m) {
                if exists|j: int, u: ValueId|
                    0 <= j < f.sites().len() && closure_in(f, ch, u, m) && #[trigger] closure_flow(f, j, u, v) {
                    let (j, u) = choose|j: int, u: ValueId|
                        0 <= j < f.sites().len() && closure_in(f, ch, u, m) && #[trigger] closure_flow(f, j, u, v);
                    assert(settled(f, j, chans, closures));
                    assert(closures.contains(u));
                } else {
                    let (j, u) = choose|j: int, u: ValueId|
                        0 <= j < f.sites().len() && chan_in(f, ch, u, m) && #[trigger] capture_flow(f, j, u, v);
                    assert(settled(f, j, chans, closures));
                    assert(chans.contains(u));
                }
            }
        }
    }
}

/// All values that may be `ch`, and all that may be closures over it.
fn aliases(f: &Function, sites: &Vec<Site>, ch: ValueId) -> (r: (Vec<ValueId>, Vec<ValueId>))
    requires
        sites@ == f.sites(),
        forall|k: int| 0 <= k < sites@.len() ==> f.has_site(#[trigger] sites@[k]),
    ensures
        forall|v: ValueId| #[trigger] r.0@.contains(v) == may_be(f, ch, v),
        forall|v: ValueId| #[trigger] r.1@.contains(v) == may_hold(f, ch, v),
{
    let mut chans = one(ch);
    let mut closures: Vec<ValueId> = Vec::new();
    proof {
        assert(chans@[0] == ch);
        assert(chan_in(f, ch, ch, 0));
        assert(may_be(f, ch, ch));
    }
    let mut changed = true;
    let ghost n = sites@.len();
    proof {
        lemma_bounded(f, ch, chans@, closures@);
    }
    while changed
        invariant
            n == sites@.len(),
            sites@ == f.sites(),
            forall|k: int| 0 <= k < sites@.len() ==> f.has_site(#[trigger] sites@[k]),
            found_so_far(f, ch, chans@, closures@),
            chans@.len() + closures@.len() <= 2 * n + 1,
            !changed ==> forall|j: int|
                0 <= j < f.sites().len() ==> #[trigger] settled(f, j, chans@, closures@),
        decreases 2 * n + 2 - chans@.len() - closures@.len() + (if changed { 1int } else { 0int }),
    {
        let ghost c0 = chans@;
        let ghost d0 = closures@;
        changed = false;
        let mut k: usize = 0;
        while k < sites.len()
            invariant
                k <= sites@.len(),
                sites@ == f.sites(),
                forall|k: int| 0 <= k < sites@.len() ==> f.has_site(#[trigger] sites@[k]),
                found_so_far(f, ch, chans@, closures@),
                chans@.len() + closures@.len() >= c0.len() + d0.len(),
                changed ==> chans@.len() + closures@.len() > c0.len() + d0.len(),
                !changed ==> chans@ == c0 && closures@ == d0,
                !changed ==> forall|j: int| 0 <= j < k ==> #[trigger] settled(f, j, chans@, closures@),
            decreases sites@.len() - k,
        {
            let more = follow(f, Ghost(ch), sites[k], Ghost(k as int), &mut chans, &mut closures);
            if more {
                changed = true;
            }
            k += 1;
        }
        proof {
            lemma_bounded(f, ch, chans@, closures@);
        }
    }
    proof {
        assert forall|v: ValueId| #[trigger] chans@.contains(v) == may_be(f, ch, v) by {
            if may_be(f, ch, v) {
                let k = choose|k: nat| #[trigger] chan_in(f, ch, v, k);
                lemma_complete(f, ch, chans@, closures@, k);
            }
        }
        assert forall|v: ValueId| #[trigger] closures@.contains(v) == may_hold(f, ch, v) by {
            if may_hold(f, ch, v) {
                let k = choose|k: nat| #[trigger] closure_in(f, ch, v, k);
                lemma_complete(f, ch, chans@, closures@, k);
            }
        }
    }
    (chans, closures)
}

/// What may be the channel or hold it.
struct Found {
    chans: Vec<ValueId>,
    closures: Vec<ValueId>,
}

impl Found {
    spec fn of(&self, f: &Function, ch: ValueId) -> bool {
        &&& forall|v: ValueId| #[trigger] self.chans@.contains(v) == may_be(f, ch, v)
        &&& forall|v: ValueId| #[trigger] self.closures@.contains(v) == may_hold(f, ch, v)
    }

    fn holds(&self, v: ValueId, Ghost(f): Ghost<&Function>, Ghost(ch): Ghost<ValueId>) -> (r: bool)
        requires
            self.of(f, ch),
        ensures
            r == carries(f, ch, v),
    {
        has(&self.chans, v) || has(&self.closures, v)
    }

    fn any(&self, vs: &Vec<ValueId>, Ghost(f): Ghost<&Function>, Ghost(ch): Ghost<ValueId>) -> (r: bool)
        requires
            self.of(f, ch),
        ensures
            r == any_carries(f, ch, vs@),
    {
        let mut i: usize = 0;
        while i < vs.len()
            invariant
                i <= vs@.len(),
                self.of(f, ch),
                forall|j: int| 0 <= j < i ==> !carries(f, ch, #[trigger] vs@[j]),
            decreases vs@.len() - i,
        {
            if self.holds(vs[i], Ghost(f), Ghost(ch)) {
                assert(carries(f, ch, vs@[i as int]));
                return true;
            }
            i += 1;
        }
        false
    }

    fn callee(&self, c: &Callee, Ghost(f): Ghost<&Function>, Ghost(ch): Ghost<ValueId>) -> (r: bool)
        requires
            self.of(f, ch),
        ensures
            r == callee_carries(f, ch, *c),
    {
        match c {
            Callee::Dynamic { value } => self.holds(*value, Ghost(f), Ghost(ch)),
            _ => false,
        }
    }

    fn arms(&self, arms: &Vec<SelectArm>, Ghost(f): Ghost<&Function>, Ghost(ch): Ghost<ValueId>) -> (r: bool)
        requires
            self.of(f, ch),
        ensures
            r == arm_sends(f, ch, arms@),
    {
        let mut i: usize = 0;
        while i < arms.len()
            invariant
                i <= arms@.len(),
                self.of(f, ch),
                forall|j: int|
                    0 <= j < i ==> !((#[trigger] arms@[j]).send matches Some(s) && carries(f, ch, s)),
            decreases arms@.len() - i,
        {
            if let Some(s) = arms[i].send {
                if self.holds(s, Ghost(f), Ghost(ch)) {
                    assert(arms@[i as int].send == Some(s));
                    return true;
                }
            }
            i += 1;
        }
        false
    }
}

fn observes_only(c: &Callee) -> (r: bool)
    ensures
        r == only_observes(*c),
{
    match c {
        Callee::Builtin(name) => {
            same_text(name.as_str(), "close") || same_text(name.as_str(), "len") || same_text(
                name.as_str(),
                "cap",
            )
        },
        _ => false,
    }
}

fn static_or_close(c: &Callee) -> (r: bool)
    ensures
        r == is_static_or_close(*c),
{
    match c {
        Callee::Static(_) => true,
        Callee::Builtin(name) => same_text(name.as_str(), "close"),
        _ => false,
    }
}

fn instr_escapes(op: &Op, found: &Found, Ghost(f): Ghost<&Function>, Ghost(ch): Ghost<ValueId>) -> (r: bool)
    requires
        found.of(f, ch),
    ensures
        r == lets_out(f, ch, *op),
{
    match op {
        Op::Load { .. } | Op::Assign { .. } | Op::Convert { .. } | Op::Phi { .. } => false,
        Op::Store { addr, val } => {
            !found.holds(*addr, Ghost(f), Ghost(ch)) && found.holds(*val, Ghost(f), Ghost(ch))
        },
        Op::MakeClosure { .. } => false,
        Op::Send { val, .. } => found.holds(*val, Ghost(f), Ghost(ch)),
        Op::Recv { .. } | Op::CloseChan { .. } => false,
        Op::Select { arms, .. } => found.arms(arms, Ghost(f), Ghost(ch)),
        Op::Call { callee, args, .. } => {
            found.callee(callee, Ghost(f), Ghost(ch)) || (!observes_only(callee) && found.any(
                args,
                Ghost(f),
                Ghost(ch),
            ))
        },
        Op::Go { callee, args } => {
            found.callee(callee, Ghost(f), Ghost(ch)) || (!static_or_close(callee) && found.any(
                args,
                Ghost(f),
                Ghost(ch),
            ))
        },
        Op::Defer { callee, args } => {
            found.callee(callee, Ghost(f), Ghost(ch)) || (!static_or_close(callee) && found.any(
                args,
                Ghost(f),
                Ghost(ch),
            ))
        },
        _ => found.any(&op_reads(op), Ghost(f), Ghost(ch)),
    }
}

/// Whether the channel `ch` leaves `f`: it, or a closure over it, is used other than as the
/// subject of channel operations, as the content of its own cell, or as an argument of a
/// static `go` or `defer`.
pub fn escapes(f: &Function, ch: ValueId) -> (r: bool)
    ensures
        r == escaping(f, ch),
{
    let sites = f.all_sites();
    let (chans, closures) = aliases(f, &sites, ch);
    let found = Found { chans, closures };
    let mut k: usize = 0;
    while k < sites.len()
        invariant
            k <= sites@.len(),
            sites@ == f.sites(),
            forall|k: int| 0 <= k < sites@.len() ==> f.has_site(#[trigger] sites@[k]),
            found.of(f, ch),
            forall|j: int| 0 <= j < k ==> !lets_out(f, ch, f.op_at(#[trigger] f.sites()[j])),
        decreases sites@.len() - k,
    {
        if instr_escapes(f.op(sites[k]), &found, Ghost(f), Ghost(ch)) {
            assert(lets_out(f, ch, f.op_at(f.sites()[k as int])));
            return true;
        }
        k += 1;
    }
    false
}

/// A channel that is returned leaves the function.
pub proof fn returned_channel_escapes(f: &Function, ch: ValueId, j: int)
    requires
        0 <= j < f.sites().len(),
        f.op_at(f.sites()[j]) matches Op::Return { vals } && vals@.contains(ch),
    ensures
        escaping(f, ch),
{
    assert(chan_in(f, ch, ch, 0));
    assert(may_be(f, ch, ch));
    let vals = reads_of(f.op_at(f.sites()[j]));
    let i = choose|i: int| 0 <= i < vals.len() && vals[i] == ch;
    assert(carries(f, ch, vals[i]));
}

} // verus!
