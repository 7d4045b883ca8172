//! Summaries and findings as bytes.

use vstd::prelude::*;
use crate::checker::{pairs_v, trace_v, Finding, FindingV, Severity, TraceStep, TraceStepV};
use crate::codec::{
    code_round_trip, list_bytes, list_encodable, list_round_trip, opt_view, put_list, put_opt,
    read_code, read_list, take_list, take_u8, views, Codec, Coded, Items, Maybe,
};
use crate::effects::{
    ChanOp, ChanOps, Effects, EffectsV, Loc, LocV, LockOp, LockOps, OpSet, Root, RootV, Spawns,
};
use crate::ir::{opt_pos, Pos, PosV};
use crate::order::{lists_map, listing, SortedMap};
use crate::summary::{clauses, Clause, ClauseV, Formula, Provenance, Summary, SummaryV};
use crate::term::Term;

verus! {

// ---- Choices ----

impl View for Provenance {
    type V = Provenance;

    open spec fn view(&self) -> Provenance {
        *self
    }
}

impl Coded for Provenance {
    open spec fn code_of(v: Provenance) -> u8 {
        match v {
            Provenance::Inferred => 0,
            Provenance::Havoc => 1,
            Provenance::Annotated => 2,
        }
    }

    open spec fn of_code(b: u8) -> Option<Provenance> {
        if b == 0 {
            Some(Provenance::Inferred)
        } else if b == 1 {
            Some(Provenance::Havoc)
        } else if b == 2 {
            Some(Provenance::Annotated)
        } else {
            None
        }
    }

    proof fn coded(v: Provenance) {
    }

    proof fn view_self(v: Provenance) {
    }

    fn code(&self) -> (r: u8) {
        match self {
            Provenance::Inferred => 0,
            Provenance::Havoc => 1,
            Provenance::Annotated => 2,
        }
    }

    fn from_code(b: u8) -> (r: Option<Provenance>) {
        match b {
            0 => Some(Provenance::Inferred),
            1 => Some(Provenance::Havoc),
            2 => Some(Provenance::Annotated),
            _ => None,
        }
    }
}

impl View for Severity {
    type V = Severity;

    open spec fn view(&self) -> Severity {
        *self
    }
}

impl Coded for Severity {
    open spec fn code_of(v: Severity) -> u8 {
        match v {
            Severity::Error => 0,
            Severity::Warning => 1,
        }
    }

    open spec fn of_code(b: u8) -> Option<Severity> {
        if b == 0 {
            Some(Severity::Error)
        } else if b == 1 {
            Some(Severity::Warning)
        } else {
            None
        }
    }

    proof fn coded(v: Severity) {
    }

    proof fn view_self(v: Severity) {
    }

    fn code(&self) -> (r: u8) {
        match self {
            Severity::Error => 0,
            Severity::Warning => 1,
        }
    }

    fn from_code(b: u8) -> (r: Option<Severity>) {
        match b {
            0 => Some(Severity::Error),
            1 => Some(Severity::Warning),
            _ => None,
        }
    }
}

impl View for Spawns {
    type V = Spawns;

    open spec fn view(&self) -> Spawns {
        *self
    }
}

impl Coded for Spawns {
    open spec fn code_of(v: Spawns) -> u8 {
        match v {
            Spawns::Zero => 0,
            Spawns::Bounded => 1,
            Spawns::Unbounded => 2,
        }
    }

    open spec fn of_code(b: u8) -> Option<Spawns> {
        if b == 0 {
            Some(Spawns::Zero)
        } else if b == 1 {
            Some(Spawns::Bounded)
        } else if b == 2 {
            Some(Spawns::Unbounded)
        } else {
            None
        }
    }

    proof fn coded(v: Spawns) {
    }

    proof fn view_self(v: Spawns) {
    }

    fn code(&self) -> (r: u8) {
        match self {
            Spawns::Zero => 0,
            Spawns::Bounded => 1,
            Spawns::Unbounded => 2,
        }
    }

    fn from_code(b: u8) -> (r: Option<Spawns>) {
        match b {
            0 => Some(Spawns::Zero),
            1 => Some(Spawns::Bounded),
            2 => Some(Spawns::Unbounded),
            _ => None,
        }
    }
}

impl View for ChanOp {
    type V = ChanOp;

    open spec fn view(&self) -> ChanOp {
        *self
    }
}

impl Coded for ChanOp {
    open spec fn code_of(v: ChanOp) -> u8 {
        match v {
            ChanOp::Make => 0,
            ChanOp::Send => 1,
            ChanOp::Recv => 2,
            ChanOp::Close => 3,
            ChanOp::Select => 4,
        }
    }

    open spec fn of_code(b: u8) -> Option<ChanOp> {
        if b == 0 {
            Some(ChanOp::Make)
        } else if b == 1 {
            Some(ChanOp::Send)
        } else if b == 2 {
            Some(ChanOp::Recv)
        } else if b == 3 {
            Some(ChanOp::Close)
        } else if b == 4 {
            Some(ChanOp::Select)
        } else {
            None
        }
    }

    proof fn coded(v: ChanOp) {
    }

    proof fn view_self(v: ChanOp) {
    }

    fn code(&self) -> (r: u8) {
        match self {
            ChanOp::Make => 0,
            ChanOp::Send => 1,
            ChanOp::Recv => 2,
            ChanOp::Close => 3,
            ChanOp::Select => 4,
        }
    }

    fn from_code(b: u8) -> (r: Option<ChanOp>) {
        match b {
            0 => Some(ChanOp::Make),
            1 => Some(ChanOp::Send),
            2 => Some(ChanOp::Recv),
            3 => Some(ChanOp::Close),
            4 => Some(ChanOp::Select),
            _ => None,
        }
    }
}

impl View for LockOp {
    type V = LockOp;

    open spec fn view(&self) -> LockOp {
        *self
    }
}

impl Coded for LockOp {
    open spec fn code_of(v: LockOp) -> u8 {
        match v {
            LockOp::Lock => 0,
            LockOp::Unlock => 1,
            LockOp::RLock => 2,
            LockOp::RUnlock => 3,
            LockOp::DeferredUnlock => 4,
            LockOp::DeferredRUnlock => 5,
        }
    }

    open spec fn of_code(b: u8) -> Option<LockOp> {
        if b == 0 {
            Some(LockOp::Lock)
        } else if b == 1 {
            Some(LockOp::Unlock)
        } else if b == 2 {
            Some(LockOp::RLock)
        } else if b == 3 {
            Some(LockOp::RUnlock)
        } else if b == 4 {
            Some(LockOp::DeferredUnlock)
        } else if b == 5 {
            Some(LockOp::DeferredRUnlock)
        } else {
            None
        }
    }

    proof fn coded(v: LockOp) {
    }

    proof fn view_self(v: LockOp) {
    }

    fn code(&self) -> (r: u8) {
        match self {
            LockOp::Lock => 0,
            LockOp::Unlock => 1,
            LockOp::RLock => 2,
            LockOp::RUnlock => 3,
            LockOp::DeferredUnlock => 4,
            LockOp::DeferredRUnlock => 5,
        }
    }

    fn from_code(b: u8) -> (r: Option<LockOp>) {
        match b {
            0 => Some(LockOp::Lock),
            1 => Some(LockOp::Unlock),
            2 => Some(LockOp::RLock),
            3 => Some(LockOp::RUnlock),
            4 => Some(LockOp::DeferredUnlock),
            5 => Some(LockOp::DeferredRUnlock),
            _ => None,
        }
    }
}

// ---- Sets of operations ----

/// `op` alone, or nothing.
pub open spec fn one_if<T>(b: bool, op: T) -> Seq<T> {
    if b { seq![op] } else { Seq::empty() }
}

proof fn lemma_one_more<T>(s: Seq<T>, b: bool, op: T)
    ensures
        forall|x: T| #[trigger]
            (s + one_if(b, op)).contains(x) <==> s.contains(x) || (b && x == op),
{
    let t = s + one_if(b, op);
    assert forall|x: T| #[trigger] t.contains(x) <==> s.contains(x) || (b && x == op) by {
        if s.contains(x) {
            let i = choose|i: int| 0 <= i < s.len() && s[i] == x;
            assert(t[i] == x);
        }
        if b && x == op {
            assert(t[s.len() as int] == x);
        }
    }
}

/// Bytes appended one after another are appended as one.
pub proof fn lemma_append(a: Seq<u8>, b: Seq<u8>, c: Seq<u8>)
    ensures
        a + b + c == a + (b + c),
{
    assert(a + b + c =~= a + (b + c));
}

/// The operations of a set, in order.
pub open spec fn chan_ops(v: ChanOps) -> Seq<ChanOp> {
    one_if(v.make, ChanOp::Make) + one_if(v.send, ChanOp::Send) + one_if(v.recv, ChanOp::Recv) + one_if(v.close, ChanOp::Close) + one_if(v.select, ChanOp::Select)
}

/// The set of operations that occur in a list.
pub open spec fn chan_ops_set(s: Seq<ChanOp>) -> ChanOps {
    ChanOps { make: s.contains(ChanOp::Make), send: s.contains(ChanOp::Send), recv: s.contains(ChanOp::Recv), close: s.contains(ChanOp::Close), select: s.contains(ChanOp::Select) }
}

proof fn lemma_chan_ops(v: ChanOps)
    ensures
        chan_ops(v).len() <= 5,
        chan_ops_set(chan_ops(v)) == v,
{
    let s0 = Seq::<ChanOp>::empty();
    let s1 = s0 + one_if(v.make, ChanOp::Make);
    lemma_one_more(s0, v.make, ChanOp::Make);
    let s2 = s1 + one_if(v.send, ChanOp::Send);
    lemma_one_more(s1, v.send, ChanOp::Send);
    let s3 = s2 + one_if(v.recv, ChanOp::Recv);
    lemma_one_more(s2, v.recv, ChanOp::Recv);
    let s4 = s3 + one_if(v.close, ChanOp::Close);
    lemma_one_more(s3, v.close, ChanOp::Close);
    let s5 = s4 + one_if(v.select, ChanOp::Select);
    lemma_one_more(s4, v.select, ChanOp::Select);
    assert(chan_ops(v) =~= s5);
}

fn has_chan_op(s: &Vec<ChanOp>, op: ChanOp) -> (r: bool)
    ensures
        r == s@.contains(op),
{
    let mut i: usize = 0;
    while i < s.len()
        invariant
            i <= s@.len(),
            forall|j: int| 0 <= j < i ==> s@[j] != op,
        decreases s@.len() - i,
    {
        if s[i] == op {
            return true;
        }
        i += 1;
    }
    false
}

impl Codec for ChanOps {
    open spec fn bytes_of(v: ChanOps) -> Seq<u8> {
        list_bytes::<ChanOp>(chan_ops(v))
    }

    open spec fn read(s: Seq<u8>) -> Option<(ChanOps, Seq<u8>)> {
        match read_list::<ChanOp>(s) {
            Some((ops, rest)) => Some((chan_ops_set(ops), rest)),
            None => None,
        }
    }

    open spec fn encodable(v: ChanOps) -> bool {
        true
    }

    open spec fn valid(&self) -> bool {
        true
    }

    proof fn round_trip(v: ChanOps, rest: Seq<u8>) {
        lemma_chan_ops(v);
        crate::codec::pow256_values();
        list_round_trip::<ChanOp>(chan_ops(v), rest);
    }

    fn put(&self, out: &mut Vec<u8>) {
        let mut ops: Vec<ChanOp> = Vec::new();
        if self.make {
            ops.push(ChanOp::Make);
        }
        if self.send {
            ops.push(ChanOp::Send);
        }
        if self.recv {
            ops.push(ChanOp::Recv);
        }
        if self.close {
            ops.push(ChanOp::Close);
        }
        if self.select {
            ops.push(ChanOp::Select);
        }
        assert(ops@ =~= chan_ops(*self));
        assert(views(ops@) =~= ops@);
        put_list(&ops, out);
    }

    fn take(input: &Vec<u8>, at: usize) -> (r: Option<(ChanOps, usize)>) {
        match take_list::<ChanOp>(input, at) {
            Some((ops, k)) => {
                assert(views(ops@) =~= ops@);
                let make = has_chan_op(&ops, ChanOp::Make);
                let send = has_chan_op(&ops, ChanOp::Send);
                let recv = has_chan_op(&ops, ChanOp::Recv);
                let close = has_chan_op(&ops, ChanOp::Close);
                let select = has_chan_op(&ops, ChanOp::Select);
                Some((ChanOps { make, send, recv, close, select }, k))
            },
            None => None,
        }
    }
}

/// The operations of a set, in order.
pub open spec fn lock_ops(v: LockOps) -> Seq<LockOp> {
    one_if(v.lock, LockOp::Lock) + one_if(v.unlock, LockOp::Unlock) + one_if(v.rlock, LockOp::RLock) + one_if(v.runlock, LockOp::RUnlock) + one_if(v.deferred_unlock, LockOp::DeferredUnlock) + one_if(v.deferred_runlock, LockOp::DeferredRUnlock)
}

/// The set of operations that occur in a list.
pub open spec fn lock_ops_set(s: Seq<LockOp>) -> LockOps {
    LockOps { lock: s.contains(LockOp::Lock), unlock: s.contains(LockOp::Unlock), rlock: s.contains(LockOp::RLock), runlock: s.contains(LockOp::RUnlock), deferred_unlock: s.contains(LockOp::DeferredUnlock), deferred_runlock: s.contains(LockOp::DeferredRUnlock) }
}

proof fn lemma_lock_ops(v: LockOps)
    ensures
        lock_ops(v).len() <= 6,
        lock_ops_set(lock_ops(v)) == v,
{
    let s0 = Seq::<LockOp>::empty();
    let s1 = s0 + one_if(v.lock, LockOp::Lock);
    lemma_one_more(s0, v.lock, LockOp::Lock);
    let s2 = s1 + one_if(v.unlock, LockOp::Unlock);
    lemma_one_more(s1, v.unlock, LockOp::Unlock);
    let s3 = s2 + one_if(v.rlock, LockOp::RLock);
    lemma_one_more(s2, v.rlock, LockOp::RLock);
    let s4 = s3 + one_if(v.runlock, LockOp::RUnlock);
    lemma_one_more(s3, v.runlock, LockOp::RUnlock);
    let s5 = s4 + one_if(v.deferred_unlock, LockOp::DeferredUnlock);
    lemma_one_more(s4, v.deferred_unlock, LockOp::DeferredUnlock);
    let s6 = s5 + one_if(v.deferred_runlock, LockOp::DeferredRUnlock);
    lemma_one_more(s5, v.deferred_runlock, LockOp::DeferredRUnlock);
    assert(lock_ops(v) =~= s6);
}

fn has_lock_op(s: &Vec<LockOp>, op: LockOp) -> (r: bool)
    ensures
        r == s@.contains(op),
{
    let mut i: usize = 0;
    while i < s.len()
        invariant
            i <= s@.len(),
            forall|j: int| 0 <= j < i ==> s@[j] != op,
        decreases s@.len() - i,
    {
        if s[i] == op {
            return true;
        }
        i += 1;
    }
    false
}

impl Codec for LockOps {
    open spec fn bytes_of(v: LockOps) -> Seq<u8> {
        list_bytes::<LockOp>(lock_ops(v))
    }

    open spec fn read(s: Seq<u8>) -> Option<(LockOps, Seq<u8>)> {
        match read_list::<LockOp>(s) {
            Some((ops, rest)) => Some((lock_ops_set(ops), rest)),
            None => None,
        }
    }

    open spec fn encodable(v: LockOps) -> bool {
        true
    }

    open spec fn valid(&self) -> bool {
        true
    }

    proof fn round_trip(v: LockOps, rest: Seq<u8>) {
        lemma_lock_ops(v);
        crate::codec::pow256_values();
        list_round_trip::<LockOp>(lock_ops(v), rest);
    }

    fn put(&self, out: &mut Vec<u8>) {
        let mut ops: Vec<LockOp> = Vec::new();
        if self.lock {
            ops.push(LockOp::Lock);
        }
        if self.unlock {
            ops.push(LockOp::Unlock);
        }
        if self.rlock {
            ops.push(LockOp::RLock);
        }
        if self.runlock {
            ops.push(LockOp::RUnlock);
        }
        if self.deferred_unlock {
            ops.push(LockOp::DeferredUnlock);
        }
        if self.deferred_runlock {
            ops.push(LockOp::DeferredRUnlock);
        }
        assert(ops@ =~= lock_ops(*self));
        assert(views(ops@) =~= ops@);
        put_list(&ops, out);
    }

    fn take(input: &Vec<u8>, at: usize) -> (r: Option<(LockOps, usize)>) {
        match take_list::<LockOp>(input, at) {
            Some((ops, k)) => {
                assert(views(ops@) =~= ops@);
                let lock = has_lock_op(&ops, LockOp::Lock);
                let unlock = has_lock_op(&ops, LockOp::Unlock);
                let rlock = has_lock_op(&ops, LockOp::RLock);
                let runlock = has_lock_op(&ops, LockOp::RUnlock);
                let deferred_unlock = has_lock_op(&ops, LockOp::DeferredUnlock);
                let deferred_runlock = has_lock_op(&ops, LockOp::DeferredRUnlock);
                Some((LockOps { lock, unlock, rlock, runlock, deferred_unlock, deferred_runlock }, k))
            },
            None => None,
        }
    }
}

// ---- Locations ----

impl Codec for Root {
    open spec fn bytes_of(v: RootV) -> Seq<u8> {
        match v {
            RootV::Param(i) => seq![0u8] + <u32 as Codec>::bytes_of(i),
            RootV::Global(n) => seq![1u8] + <String as Codec>::bytes_of(n),
            RootV::Alloc(i) => seq![2u8] + <u32 as Codec>::bytes_of(i),
            RootV::Unknown => seq![3u8],
            RootV::FreeVar(i) => seq![4u8] + <u32 as Codec>::bytes_of(i),
        }
    }

    open spec fn read(s: Seq<u8>) -> Option<(RootV, Seq<u8>)> {
        match read_code(s) {
            None => None,
            Some((b, rest)) => if b == 0 || b == 2 || b == 4 {
                match <u32 as Codec>::read(rest) {
                    Some((i, rest)) => Some(
                        (
                            if b == 0 {
                                RootV::Param(i)
                            } else if b == 2 {
                                RootV::Alloc(i)
                            } else {
                                RootV::FreeVar(i)
                            },
                            rest,
                        ),
                    ),
                    None => None,
                }
            } else if b == 1 {
                match <String as Codec>::read(rest) {
                    Some((n, rest)) => Some((RootV::Global(n), rest)),
                    None => None,
                }
            } else if b == 3 {
                Some((RootV::Unknown, rest))
            } else {
                None
            },
        }
    }

    open spec fn encodable(v: RootV) -> bool {
        match v {
            RootV::Global(n) => <String as Codec>::encodable(n),
            _ => true,
        }
    }

    open spec fn valid(&self) -> bool {
        true
    }

    proof fn round_trip(v: RootV, rest: Seq<u8>) {
        let (b, tail) = match v {
            RootV::Param(i) => (0u8, <u32 as Codec>::bytes_of(i)),
            RootV::Global(n) => (1u8, <String as Codec>::bytes_of(n)),
            RootV::Alloc(i) => (2u8, <u32 as Codec>::bytes_of(i)),
            RootV::Unknown => (3u8, Seq::empty()),
            RootV::FreeVar(i) => (4u8, <u32 as Codec>::bytes_of(i)),
        };
        match v {
            RootV::Param(i) => <u32 as Codec>::round_trip(i, rest),
            RootV::Global(n) => <String as Codec>::round_trip(n, rest),
            RootV::Alloc(i) => <u32 as Codec>::round_trip(i, rest),
            RootV::Unknown => {
                assert(tail + rest =~= rest);
            },
            RootV::FreeVar(i) => <u32 as Codec>::round_trip(i, rest),
        }
        assert(Self::bytes_of(v) + rest =~= seq![b] + (tail + rest));
        code_round_trip(b, tail + rest);
    }

    fn put(&self, out: &mut Vec<u8>) {
        let ghost before = out@;
        match self {
            Root::Param(i) => {
                out.push(0);
                i.put(out);
            },
            Root::Global(n) => {
                out.push(1);
                n.put(out);
            },
            Root::Alloc(i) => {
                out.push(2);
                i.put(out);
            },
            Root::Unknown => {
                out.push(3);
            },
            Root::FreeVar(i) => {
                out.push(4);
                i.put(out);
            },
        }
        assert(out@ =~= before + Self::bytes_of(self@));
    }

    fn take(input: &Vec<u8>, at: usize) -> (r: Option<(Root, usize)>) {
        match take_u8(input, at) {
            None => None,
            Some((b, k)) => match b {
                0 => match <u32 as Codec>::take(input, k) {
                    Some((i, k)) => Some((Root::Param(i), k)),
                    None => None,
                },
                1 => match <String as Codec>::take(input, k) {
                    Some((n, k)) => Some((Root::Global(n), k)),
                    None => None,
                },
                2 => match <u32 as Codec>::take(input, k) {
                    Some((i, k)) => Some((Root::Alloc(i), k)),
                    None => None,
                },
                3 => Some((Root::Unknown, k)),
                4 => match <u32 as Codec>::take(input, k) {
                    Some((i, k)) => Some((Root::FreeVar(i), k)),
                    None => None,
                },
                _ => None,
            },
        }
    }
}

/// The parts of a [`Loc`], in the order in which they are written.
pub type LocParts = (Root, Items<u32>);

/// The parts of the model.
pub open spec fn loc_parts(v: LocV) -> <LocParts as View>::V {
    (v.root, v.path)
}

/// The model with these parts.
pub open spec fn loc_of(p: <LocParts as View>::V) -> LocV {
    LocV { root: p.0, path: p.1 }
}

impl Codec for Loc {
    open spec fn bytes_of(v: LocV) -> Seq<u8> {
        <LocParts as Codec>::bytes_of(loc_parts(v))
    }

    open spec fn read(s: Seq<u8>) -> Option<(LocV, Seq<u8>)> {
        match <LocParts as Codec>::read(s) {
            Some((p, rest)) => Some((loc_of(p), rest)),
            None => None,
        }
    }

    open spec fn encodable(v: LocV) -> bool {
        <LocParts as Codec>::encodable(loc_parts(v))
    }

    open spec fn valid(&self) -> bool {
        true
    }

    proof fn round_trip(v: LocV, rest: Seq<u8>) {
        <LocParts as Codec>::round_trip(loc_parts(v), rest);
    }

    fn put(&self, out: &mut Vec<u8>) {
        let ghost before = out@;
        self.root.put(out);
        let ghost o1 = out@;
        put_list(&self.path, out);
        assert(views(self.path@) =~= self.path@);
        proof {
            let v = self@;
            let t1 = <Items<u32> as Codec>::bytes_of(v.path);
            lemma_append(before, <Root as Codec>::bytes_of(v.root), t1);
        }
        assert(out@ == before + Self::bytes_of(self@));
    }

    fn take(input: &Vec<u8>, at: usize) -> (r: Option<(Loc, usize)>) {
        match <LocParts as Codec>::take(input, at) {
            Some((p, k)) => {
                let ghost pv = p@;
                let r = Loc { root: p.0, path: p.1.0 };
                assert(views(r.path@) =~= r.path@);
                assert(r@ == loc_of(pv));
                Some((r, k))
            },
            None => None,
        }
    }
}

// ---- Effects ----

/// The map that a list of entries builds up; of two entries for a key the later one counts.
pub open spec fn map_of<S: OpSet>(items: Seq<(LocV, S)>, n: nat) -> Map<LocV, S>
    decreases n,
{
    if n == 0 {
        Map::empty()
    } else {
        map_of(items, (n - 1) as nat).insert(items[n - 1].0, items[n - 1].1)
    }
}

proof fn lemma_map_of<S: OpSet>(m: Map<LocV, S>, items: Seq<(LocV, S)>, n: nat)
    requires
        lists_map::<Loc, S>(m, items),
        n <= items.len(),
    ensures
        forall|l: LocV| #[trigger]
            map_of(items, n).contains_key(l) <==> exists|i: int|
                0 <= i < n && (#[trigger] items[i]).0 == l,
        forall|l: LocV| #[trigger] map_of(items, n).contains_key(l) ==> map_of(items, n)[l] == m[l],
    decreases n,
{
    if n > 0 {
        let k = (n - 1) as nat;
        lemma_map_of(m, items, k);
        let a = map_of(items, k);
        let b = map_of(items, n);
        let x = items[n - 1];
        assert(m.contains_pair(x.0, x.1));
        assert forall|l: LocV| #[trigger] b.contains_key(l) implies b[l] == m[l] by {
            if l != x.0 {
                assert(a.contains_key(l));
            }
        }
        assert forall|l: LocV| #[trigger] b.contains_key(l) <==> exists|i: int|
            0 <= i < n && (#[trigger] items[i]).0 == l by {
            if b.contains_key(l) {
                if l == x.0 {
                    assert(items[n - 1].0 == l);
                } else {
                    assert(a.contains_key(l));
                    let i = choose|i: int| 0 <= i < k && (#[trigger] items[i]).0 == l;
                    assert(items[i].0 == l);
                }
            }
            if exists|i: int| 0 <= i < n && (#[trigger] items[i]).0 == l {
                let i = choose|i: int| 0 <= i < n && (#[trigger] items[i]).0 == l;
                if i < k {
                    assert(items[i].0 == l);
                    assert(a.contains_key(l));
                }
            }
        }
    }
}

/// The bytes of a map by location: its entries in order.
pub open spec fn map_bytes<S: OpSet + Codec>(m: Map<LocV, S>) -> Seq<u8> {
    list_bytes::<(Loc, S)>(listing::<Loc, S>(m))
}

/// Reads a map by location.
pub open spec fn read_map<S: OpSet + Codec>(s: Seq<u8>) -> Option<(Map<LocV, S>, Seq<u8>)> {
    match read_list::<(Loc, S)>(s) {
        Some((items, rest)) => Some((map_of(items, items.len()), rest)),
        None => None,
    }
}

/// Whether a map has finitely many entries, within the limits of the format.
pub open spec fn map_encodable<S: OpSet + Codec>(m: Map<LocV, S>) -> bool {
    &&& lists_map::<Loc, S>(m, listing::<Loc, S>(m))
    &&& list_encodable::<(Loc, S)>(listing::<Loc, S>(m))
}

proof fn lemma_map_round_trip<S: OpSet + Codec>(m: Map<LocV, S>, rest: Seq<u8>)
    requires
        map_encodable(m),
    ensures
        read_map::<S>(map_bytes(m) + rest) == Some((m, rest)),
        map_bytes(m).len() > 0,
{
    let items = listing::<Loc, S>(m);
    list_round_trip::<(Loc, S)>(items, rest);
    lemma_map_of(m, items, items.len());
    let r = map_of(items, items.len());
    assert forall|l: LocV| #[trigger] r.contains_key(l) == m.contains_key(l) by {
        if m.contains_key(l) {
            let i = choose|i: int| 0 <= i < items.len() && #[trigger] items[i] == (l, m[l]);
            assert(items[i].0 == l);
        }
        if r.contains_key(l) {
            let i = choose|i: int| 0 <= i < items.len() && (#[trigger] items[i]).0 == l;
            assert(m.contains_pair(items[i].0, items[i].1));
        }
    }
    assert(r =~= m);
}

/// Appends a map by location.
fn put_map<S: OpSet + Codec>(m: &SortedMap<Loc, S>, out: &mut Vec<u8>)
    requires
        m.wf(),
        forall|s: S| #[trigger] s.valid(),
    ensures
        final(out)@ == old(out)@ + map_bytes(m@),
{
    let mut items: Vec<(Loc, S)> = Vec::new();
    let mut i: usize = 0;
    let n = m.len();
    while i < n
        invariant
            i <= n,
            n == m.items().len(),
            items@.len() == i,
            forall|j: int|
                0 <= j < i ==> (#[trigger] items@[j])@ == m.items()[j],
        decreases n - i,
    {
        let ghost before = items@;
        let l = m.key_at(i).clone();
        let s = *m.value_at(i);
        items.push((l, s));
        assert(items@[i as int]@ == m.items()[i as int]);
        i += 1;
    }
    proof {
        m.items_are_listing();
        assert(views(items@) =~= m.items());
    }
    put_list(&items, out);
}

/// Reads a map by location.
fn take_map<S: OpSet + Codec>(input: &Vec<u8>, at: usize) -> (r: Option<(SortedMap<Loc, S>, usize)>)
    requires
        at <= input@.len(),
    ensures
        match r {
            Some((m, k)) => read_map::<S>(input@.skip(at as int)) == Some((m@, input@.skip(k as int)))
                && at <= k <= input@.len() && m.wf(),
            None => read_map::<S>(input@.skip(at as int)) is None,
        },
{
    let (items, k) = match take_list::<(Loc, S)>(input, at) {
        Some(x) => x,
        None => {
            return None;
        },
    };
    let ghost vs = views(items@);
    let mut m: SortedMap<Loc, S> = SortedMap::new();
    let mut i: usize = 0;
    while i < items.len()
        invariant
            i <= items@.len(),
            vs == views(items@),
            m.wf(),
            m@ == map_of(vs, i as nat),
        decreases items@.len() - i,
    {
        let s = items[i].1;
        proof {
            S::view_self(s);
            assert(vs[i as int] == items@[i as int]@);
        }
        m.insert(items[i].0.clone(), s);
        i += 1;
    }
    Some((m, k))
}

impl Codec for Effects {
    open spec fn bytes_of(v: EffectsV) -> Seq<u8> {
        <Spawns as Codec>::bytes_of(v.spawns) + map_bytes(v.chan) + map_bytes(v.lock)
    }

    open spec fn read(s: Seq<u8>) -> Option<(EffectsV, Seq<u8>)> {
        match <Spawns as Codec>::read(s) {
            Some((spawns, rest)) => match read_map::<ChanOps>(rest) {
                Some((chan, rest)) => match read_map::<LockOps>(rest) {
                    Some((lock, rest)) => Some((EffectsV { spawns, chan, lock }, rest)),
                    None => None,
                },
                None => None,
            },
            None => None,
        }
    }

    open spec fn encodable(v: EffectsV) -> bool {
        map_encodable(v.chan) && map_encodable(v.lock)
    }

    open spec fn valid(&self) -> bool {
        self.wf()
    }

    proof fn round_trip(v: EffectsV, rest: Seq<u8>) {
        let c = map_bytes(v.chan);
        let l = map_bytes(v.lock);
        let a = <Spawns as Codec>::bytes_of(v.spawns);
        assert(a + c + l + rest =~= a + (c + (l + rest)));
        <Spawns as Codec>::round_trip(v.spawns, c + (l + rest));
        lemma_map_round_trip(v.chan, l + rest);
        lemma_map_round_trip(v.lock, rest);
    }

    fn put(&self, out: &mut Vec<u8>) {
        self.spawns.put(out);
        put_map(&self.chan_ops, out);
        put_map(&self.lock_ops, out);
    }

    fn take(input: &Vec<u8>, at: usize) -> (r: Option<(Effects, usize)>) {
        match Spawns::take(input, at) {
            Some((spawns, k)) => match take_map::<ChanOps>(input, k) {
                Some((chan_ops, k)) => match take_map::<LockOps>(input, k) {
                    Some((lock_ops, k)) => Some((Effects { spawns, chan_ops, lock_ops }, k)),
                    None => None,
                },
                None => None,
            },
            None => None,
        }
    }
}

// ---- Summaries ----

/// The parts of a [`Clause`], in the order in which they are written.
pub type ClauseParts = (String, (Term, Provenance));

/// The parts of the model.
pub open spec fn clause_parts(v: ClauseV) -> <ClauseParts as View>::V {
    (v.tag, (v.term, v.provenance))
}

/// The model with these parts.
pub open spec fn clause_of(p: <ClauseParts as View>::V) -> ClauseV {
    ClauseV { tag: p.0, term: p.1.0, provenance: p.1.1 }
}

impl Codec for Clause {
    open spec fn bytes_of(v: ClauseV) -> Seq<u8> {
        <ClauseParts as Codec>::bytes_of(clause_parts(v))
    }

    open spec fn read(s: Seq<u8>) -> Option<(ClauseV, Seq<u8>)> {
        match <ClauseParts as Codec>::read(s) {
            Some((p, rest)) => Some((clause_of(p), rest)),
            None => None,
        }
    }

    open spec fn encodable(v: ClauseV) -> bool {
        <ClauseParts as Codec>::encodable(clause_parts(v))
    }

    open spec fn valid(&self) -> bool {
        true
    }

    proof fn round_trip(v: ClauseV, rest: Seq<u8>) {
        <ClauseParts as Codec>::round_trip(clause_parts(v), rest);
    }

    fn put(&self, out: &mut Vec<u8>) {
        let ghost before = out@;
        self.tag.put(out);
        let ghost o1 = out@;
        self.formula.term.put(out);
        let ghost o2 = out@;
        self.provenance.put(out);
        proof {
            let v = self@;
            let t2 = <Provenance as Codec>::bytes_of(v.provenance);
            lemma_append(o1, <Term as Codec>::bytes_of(v.term), t2);
            let t1 = <Term as Codec>::bytes_of(v.term) + t2;
            lemma_append(before, <String as Codec>::bytes_of(v.tag), t1);
        }
        assert(out@ == before + Self::bytes_of(self@));
    }

    fn take(input: &Vec<u8>, at: usize) -> (r: Option<(Clause, usize)>) {
        match <ClauseParts as Codec>::take(input, at) {
            Some((p, k)) => {
                let ghost pv = p@;
                let r = Clause { tag: p.0, formula: Formula { term: p.1.0 }, provenance: p.1.1 };
                assert(r@ == clause_of(pv));
                Some((r, k))
            },
            None => None,
        }
    }
}

/// The parts of a [`Summary`], in the order in which they are written.
pub type SummaryParts = (Items<Clause>, (Items<Clause>, (Effects, Provenance)));

/// The parts of the model.
pub open spec fn summary_parts(v: SummaryV) -> <SummaryParts as View>::V {
    (v.requires_, (v.ensures_, (v.effects, v.provenance)))
}

/// The model with these parts.
pub open spec fn summary_of(p: <SummaryParts as View>::V) -> SummaryV {
    SummaryV { requires_: p.0, ensures_: p.1.0, effects: p.1.1.0, provenance: p.1.1.1 }
}

impl Codec for Summary {
    open spec fn bytes_of(v: SummaryV) -> Seq<u8> {
        <SummaryParts as Codec>::bytes_of(summary_parts(v))
    }

    open spec fn read(s: Seq<u8>) -> Option<(SummaryV, Seq<u8>)> {
        match <SummaryParts as Codec>::read(s) {
            Some((p, rest)) => Some((summary_of(p), rest)),
            None => None,
        }
    }

    open spec fn encodable(v: SummaryV) -> bool {
        <SummaryParts as Codec>::encodable(summary_parts(v))
    }

    open spec fn valid(&self) -> bool {
        self.effects.wf()
    }

    proof fn round_trip(v: SummaryV, rest: Seq<u8>) {
        <SummaryParts as Codec>::round_trip(summary_parts(v), rest);
    }

    fn put(&self, out: &mut Vec<u8>) {
        let ghost before = out@;
        put_list(&self.requires_, out);
        let ghost o1 = out@;
        put_list(&self.ensures_, out);
        let ghost o2 = out@;
        self.effects.put(out);
        let ghost o3 = out@;
        self.provenance.put(out);
        assert(views(self.requires_@) =~= clauses(self.requires_@));
        assert(views(self.ensures_@) =~= clauses(self.ensures_@));
        proof {
            let v = self@;
            let t3 = <Provenance as Codec>::bytes_of(v.provenance);
            lemma_append(o2, <Effects as Codec>::bytes_of(v.effects), t3);
            let t2 = <Effects as Codec>::bytes_of(v.effects) + t3;
            lemma_append(o1, <Items<Clause> as Codec>::bytes_of(v.ensures_), t2);
            let t1 = <Items<Clause> as Codec>::bytes_of(v.ensures_) + t2;
            lemma_append(before, <Items<Clause> as Codec>::bytes_of(v.requires_), t1);
        }
        assert(out@ == before + Self::bytes_of(self@));
    }

    fn take(input: &Vec<u8>, at: usize) -> (r: Option<(Summary, usize)>) {
        match <SummaryParts as Codec>::take(input, at) {
            Some((p, k)) => {
                let ghost pv = p@;
                let r = Summary { requires_: p.0.0, ensures_: p.1.0.0, effects: p.1.1.0, provenance: p.1.1.1 };
                assert(views(r.requires_@) =~= clauses(r.requires_@));
                assert(views(r.ensures_@) =~= clauses(r.ensures_@));
                assert(r@ == summary_of(pv));
                Some((r, k))
            },
            None => None,
        }
    }
}

// ---- Findings ----

/// The parts of a [`Pos`], in the order in which they are written.
pub type PosParts = (String, (u32, u32));

/// The parts of the model.
pub open spec fn pos_parts(v: PosV) -> <PosParts as View>::V {
    (v.file, (v.line, v.col))
}

/// The model with these parts.
pub open spec fn pos_of(p: <PosParts as View>::V) -> PosV {
    PosV { file: p.0, line: p.1.0, col: p.1.1 }
}

impl Codec for Pos {
    open spec fn bytes_of(v: PosV) -> Seq<u8> {
        <PosParts as Codec>::bytes_of(pos_parts(v))
    }

    open spec fn read(s: Seq<u8>) -> Option<(PosV, Seq<u8>)> {
        match <PosParts as Codec>::read(s) {
            Some((p, rest)) => Some((pos_of(p), rest)),
            None => None,
        }
    }

    open spec fn encodable(v: PosV) -> bool {
        <PosParts as Codec>::encodable(pos_parts(v))
    }

    open spec fn valid(&self) -> bool {
        true
    }

    proof fn round_trip(v: PosV, rest: Seq<u8>) {
        <PosParts as Codec>::round_trip(pos_parts(v), rest);
    }

    fn put(&self, out: &mut Vec<u8>) {
        let ghost before = out@;
        self.file.put(out);
        let ghost o1 = out@;
        self.line.put(out);
        let ghost o2 = out@;
        self.col.put(out);
        proof {
            let v = self@;
            let t2 = <u32 as Codec>::bytes_of(v.col);
            lemma_append(o1, <u32 as Codec>::bytes_of(v.line), t2);
            let t1 = <u32 as Codec>::bytes_of(v.line) + t2;
            lemma_append(before, <String as Codec>::bytes_of(v.file), t1);
        }
        assert(out@ == before + Self::bytes_of(self@));
    }

    fn take(input: &Vec<u8>, at: usize) -> (r: Option<(Pos, usize)>) {
        match <PosParts as Codec>::take(input, at) {
            Some((p, k)) => {
                let ghost pv = p@;
                let r = Pos { file: p.0, line: p.1.0, col: p.1.1 };
                assert(r@ == pos_of(pv));
                Some((r, k))
            },
            None => None,
        }
    }
}

/// The parts of a [`TraceStep`], in the order in which they are written.
pub type TraceStepParts = (u32, Maybe<Pos>);

/// The parts of the model.
pub open spec fn trace_step_parts(v: TraceStepV) -> <TraceStepParts as View>::V {
    (v.block, v.pos)
}

/// The model with these parts.
pub open spec fn trace_step_of(p: <TraceStepParts as View>::V) -> TraceStepV {
    TraceStepV { block: p.0, pos: p.1 }
}

impl Codec for TraceStep {
    open spec fn bytes_of(v: TraceStepV) -> Seq<u8> {
        <TraceStepParts as Codec>::bytes_of(trace_step_parts(v))
    }

    open spec fn read(s: Seq<u8>) -> Option<(TraceStepV, Seq<u8>)> {
        match <TraceStepParts as Codec>::read(s) {
            Some((p, rest)) => Some((trace_step_of(p), rest)),
            None => None,
        }
    }

    open spec fn encodable(v: TraceStepV) -> bool {
        <TraceStepParts as Codec>::encodable(trace_step_parts(v))
    }

    open spec fn valid(&self) -> bool {
        true
    }

    proof fn round_trip(v: TraceStepV, rest: Seq<u8>) {
        <TraceStepParts as Codec>::round_trip(trace_step_parts(v), rest);
    }

    fn put(&self, out: &mut Vec<u8>) {
        let ghost before = out@;
        self.block.put(out);
        let ghost o1 = out@;
        put_opt(&self.pos, out);
        assert(opt_view(self.pos) == opt_pos(self.pos));
        proof {
            let v = self@;
            let t1 = <Maybe<Pos> as Codec>::bytes_of(v.pos);
            lemma_append(before, <u32 as Codec>::bytes_of(v.block), t1);
        }
        assert(out@ == before + Self::bytes_of(self@));
    }

    fn take(input: &Vec<u8>, at: usize) -> (r: Option<(TraceStep, usize)>) {
        match <TraceStepParts as Codec>::take(input, at) {
            Some((p, k)) => {
                let ghost pv = p@;
                let r = TraceStep { block: p.0, pos: p.1.0 };
                assert(opt_view(r.pos) == opt_pos(r.pos));
                assert(r@ == trace_step_of(pv));
                Some((r, k))
            },
            None => None,
        }
    }
}

/// The parts of a [`Finding`], in the order in which they are written.
pub type FindingParts = (String, (String, (String, (Maybe<Pos>, (String, (Items<TraceStep>, (Items<(String, String)>, Severity)))))));

/// The parts of the model.
pub open spec fn finding_parts(v: FindingV) -> <FindingParts as View>::V {
    (v.checker, (v.tag, (v.func, (v.pos, (v.message, (v.trace, (v.model, v.severity)))))))
}

/// The model with these parts.
pub open spec fn finding_of(p: <FindingParts as View>::V) -> FindingV {
    FindingV { checker: p.0, tag: p.1.0, func: p.1.1.0, pos: p.1.1.1.0, message: p.1.1.1.1.0, trace: p.1.1.1.1.1.0, model: p.1.1.1.1.1.1.0, severity: p.1.1.1.1.1.1.1 }
}

impl Codec for Finding {
    open spec fn bytes_of(v: FindingV) -> Seq<u8> {
        <FindingParts as Codec>::bytes_of(finding_parts(v))
    }

    open spec fn read(s: Seq<u8>) -> Option<(FindingV, Seq<u8>)> {
        match <FindingParts as Codec>::read(s) {
            Some((p, rest)) => Some((finding_of(p), rest)),
            None => None,
        }
    }

    open spec fn encodable(v: FindingV) -> bool {
        <FindingParts as Codec>::encodable(finding_parts(v))
    }

    open spec fn valid(&self) -> bool {
        true
    }

    proof fn round_trip(v: FindingV, rest: Seq<u8>) {
        <FindingParts as Codec>::round_trip(finding_parts(v), rest);
    }

    fn put(&self, out: &mut Vec<u8>) {
        let ghost before = out@;
        self.checker.put(out);
        let ghost o1 = out@;
        self.tag.put(out);
        let ghost o2 = out@;
        self.func.put(out);
        let ghost o3 = out@;
        put_opt(&self.pos, out);
        let ghost o4 = out@;
        self.message.put(out);
        let ghost o5 = out@;
        put_list(&self.trace, out);
        let ghost o6 = out@;
        put_list(&self.model, out);
        let ghost o7 = out@;
        self.severity.put(out);
        assert(opt_view(self.pos) == opt_pos(self.pos));
        assert(views(self.trace@) =~= trace_v(self.trace@));
        assert(views(self.model@) =~= pairs_v(self.model@));
        proof {
            let v = self@;
            let t7 = <Severity as Codec>::bytes_of(v.severity);
            lemma_append(o6, <Items<(String, String)> as Codec>::bytes_of(v.model), t7);
            let t6 = <Items<(String, String)> as Codec>::bytes_of(v.model) + t7;
            lemma_append(o5, <Items<TraceStep> as Codec>::bytes_of(v.trace), t6);
            let t5 = <Items<TraceStep> as Codec>::bytes_of(v.trace) + t6;
            lemma_append(o4, <String as Codec>::bytes_of(v.message), t5);
            let t4 = <String as Codec>::bytes_of(v.message) + t5;
            lemma_append(o3, <Maybe<Pos> as Codec>::bytes_of(v.pos), t4);
            let t3 = <Maybe<Pos> as Codec>::bytes_of(v.pos) + t4;
            lemma_append(o2, <String as Codec>::bytes_of(v.func), t3);
            let t2 = <String as Codec>::bytes_of(v.func) + t3;
            lemma_append(o1, <String as Codec>::bytes_of(v.tag), t2);
            let t1 = <String as Codec>::bytes_of(v.tag) + t2;
            lemma_append(before, <String as Codec>::bytes_of(v.checker), t1);
        }
        assert(out@ == before + Self::bytes_of(self@));
    }

    fn take(input: &Vec<u8>, at: usize) -> (r: Option<(Finding, usize)>) {
        match <FindingParts as Codec>::take(input, at) {
            Some((p, k)) => {
                let ghost pv = p@;
                let r = Finding { checker: p.0, tag: p.1.0, func: p.1.1.0, pos: p.1.1.1.0.0, message: p.1.1.1.1.0, trace: p.1.1.1.1.1.0.0, model: p.1.1.1.1.1.1.0.0, severity: p.1.1.1.1.1.1.1 };
                assert(opt_view(r.pos) == opt_pos(r.pos));
                assert(views(r.trace@) =~= trace_v(r.trace@));
                assert(views(r.model@) =~= pairs_v(r.model@));
                assert(r@ == finding_of(pv));
                Some((r, k))
            },
            None => None,
        }
    }
}

} // verus!
