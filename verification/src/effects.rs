//! Concurrency effects: which channel and lock operations a function performs, and where.
//!
//! Effects are keyed by an access path. [`Root::Unknown`] is the finite top location, used
//! where identity cannot be established.

use vstd::prelude::*;
use crate::graph::{cyclic_blocks, reaches_plus, succ_graph};
use crate::ir::{
    first_index, lock_kind, lock_kind_of, position_of, same_text, CallGraph, Callee, FuncId,
    Function, LockKind, MakeKind, Op, Program, SelectArm, Site, ValueId, ValueKind,
};
use crate::order::{lex_lt, listing, Key, SortedMap};
use crate::summary::{SummaryTable, TableV};

verus! {

/// A channel operation.
#[derive(Debug, Clone, Copy, PartialEq, Eq, PartialOrd, Ord, Structural)]
pub enum ChanOp {
    Make,
    Send,
    Recv,
    Close,
    Select,
}

/// A mutex operation. A deferred unlock runs when the function returns, not where the
/// `defer` stands.
#[derive(Debug, Clone, Copy, PartialEq, Eq, PartialOrd, Ord, Structural)]
pub enum LockOp {
    Lock,
    Unlock,
    RLock,
    RUnlock,
    DeferredUnlock,
    DeferredRUnlock,
}

/// How many goroutines a function starts.
#[derive(Debug, Clone, Copy, PartialEq, Eq, PartialOrd, Ord, Structural)]
pub enum Spawns {
    Zero,
    Bounded,
    Unbounded,
}

impl Spawns {
    /// The place of `self` in the order none, bounded, unbounded.
    pub open spec fn rank(self) -> int {
        match self {
            Spawns::Zero => 0,
            Spawns::Bounded => 1,
            Spawns::Unbounded => 2,
        }
    }

    /// The larger of the two.
    pub open spec fn max_of(self, other: Spawns) -> Spawns {
        if self.rank() >= other.rank() { self } else { other }
    }

    /// The larger of the two.
    pub fn larger(self, other: Spawns) -> (r: Spawns)
        ensures
            r == self.max_of(other),
    {
        match (self, other) {
            (Spawns::Unbounded, _) => self,
            (_, Spawns::Unbounded) => other,
            (Spawns::Bounded, _) => self,
            (_, Spawns::Bounded) => other,
            _ => self,
        }
    }
}

/// A finite set of operations.
pub trait OpSet: View<V = Self> + Copy + Sized {
    /// Whether the operation with number `k` is in the set.
    spec fn has(self, k: int) -> bool;

    /// The set of the operations whose numbers satisfy `p`.
    spec fn build(p: spec_fn(int) -> bool) -> Self;

    /// Whether `k` is the number of an operation.
    spec fn is_op(k: int) -> bool;

    /// Sets with the same operations are equal.
    proof fn extensional(a: Self, b: Self)
        requires
            forall|k: int| Self::is_op(k) ==> #[trigger] a.has(k) == b.has(k),
        ensures
            a == b,
    ;

    /// A built set holds what it was built from.
    proof fn build_has(p: spec_fn(int) -> bool, k: int)
        ensures
            Self::is_op(k) ==> Self::build(p).has(k) == p(k),
    ;

    /// A set's model is the set.
    proof fn view_self(a: Self)
        ensures
            a@ == a,
    ;

    /// The operations in either set.
    fn union(self, other: Self) -> (r: Self)
        ensures
            forall|k: int| Self::is_op(k) ==> #[trigger] r.has(k) == (self.has(k) || other.has(k)),
    ;

    /// Whether two sets hold the same operations.
    fn same_ops(self, other: Self) -> (r: bool)
        ensures
            r == (self == other),
    ;
}

/// The operations in either set.
pub open spec fn both<S: OpSet>(a: S, b: S) -> S {
    S::build(|k: int| a.has(k) || b.has(k))
}

/// A set of channel operations.
#[derive(Debug, Clone, Copy, PartialEq, Eq, Structural)]
pub struct ChanOps {
    pub make: bool,
    pub send: bool,
    pub recv: bool,
    pub close: bool,
    pub select: bool,
}

impl View for ChanOps {
    type V = ChanOps;

    open spec fn view(&self) -> ChanOps {
        *self
    }
}

impl OpSet for ChanOps {
    open spec fn has(self, k: int) -> bool {
        (k == 0 && self.make) || (k == 1 && self.send) || (k == 2 && self.recv) || (k == 3 && self.close) || (
        k == 4 && self.select)
    }

    open spec fn build(p: spec_fn(int) -> bool) -> ChanOps {
        ChanOps { make: p(0), send: p(1), recv: p(2), close: p(3), select: p(4) }
    }

    open spec fn is_op(k: int) -> bool {
        0 <= k < 5
    }

    proof fn extensional(a: ChanOps, b: ChanOps) {
        assert(a.has(0) == b.has(0));
        assert(a.has(1) == b.has(1));
        assert(a.has(2) == b.has(2));
        assert(a.has(3) == b.has(3));
        assert(a.has(4) == b.has(4));
    }

    proof fn build_has(p: spec_fn(int) -> bool, k: int) {
    }

    proof fn view_self(a: ChanOps) {
    }

    fn same_ops(self, other: ChanOps) -> (r: bool) {
        self == other
    }

    fn union(self, other: ChanOps) -> (r: ChanOps) {
        ChanOps {
            make: self.make || other.make,
            send: self.send || other.send,
            recv: self.recv || other.recv,
            close: self.close || other.close,
            select: self.select || other.select,
        }
    }
}

impl ChanOps {
    /// Whether `op` is in the set.
    pub open spec fn holds(self, op: ChanOp) -> bool {
        match op {
            ChanOp::Make => self.make,
            ChanOp::Send => self.send,
            ChanOp::Recv => self.recv,
            ChanOp::Close => self.close,
            ChanOp::Select => self.select,
        }
    }

    /// The set of `op` alone.
    pub open spec fn only(op: ChanOp) -> ChanOps {
        ChanOps {
            make: op == ChanOp::Make,
            send: op == ChanOp::Send,
            recv: op == ChanOp::Recv,
            close: op == ChanOp::Close,
            select: op == ChanOp::Select,
        }
    }

    /// The empty set.
    pub fn none() -> (r: ChanOps)
        ensures
            forall|op: ChanOp| !#[trigger] r.holds(op),
    {
        ChanOps { make: false, send: false, recv: false, close: false, select: false }
    }

    /// The set of `op` alone.
    pub fn of(op: ChanOp) -> (r: ChanOps)
        ensures
            r == ChanOps::only(op),
    {
        ChanOps {
            make: op == ChanOp::Make,
            send: op == ChanOp::Send,
            recv: op == ChanOp::Recv,
            close: op == ChanOp::Close,
            select: op == ChanOp::Select,
        }
    }

    /// Whether `op` is in the set.
    pub fn contains(self, op: ChanOp) -> (r: bool)
        ensures
            r == self.holds(op),
    {
        match op {
            ChanOp::Make => self.make,
            ChanOp::Send => self.send,
            ChanOp::Recv => self.recv,
            ChanOp::Close => self.close,
            ChanOp::Select => self.select,
        }
    }
}

/// A set of mutex operations.
#[derive(Debug, Clone, Copy, PartialEq, Eq, Structural)]
pub struct LockOps {
    pub lock: bool,
    pub unlock: bool,
    pub rlock: bool,
    pub runlock: bool,
    pub deferred_unlock: bool,
    pub deferred_runlock: bool,
}

impl View for LockOps {
    type V = LockOps;

    open spec fn view(&self) -> LockOps {
        *self
    }
}

impl OpSet for LockOps {
    open spec fn has(self, k: int) -> bool {
        (k == 0 && self.lock) || (k == 1 && self.unlock) || (k == 2 && self.rlock) || (k == 3 && self.runlock)
            || (k == 4 && self.deferred_unlock) || (k == 5 && self.deferred_runlock)
    }

    open spec fn build(p: spec_fn(int) -> bool) -> LockOps {
        LockOps {
            lock: p(0),
            unlock: p(1),
            rlock: p(2),
            runlock: p(3),
            deferred_unlock: p(4),
            deferred_runlock: p(5),
        }
    }

    open spec fn is_op(k: int) -> bool {
        0 <= k < 6
    }

    proof fn extensional(a: LockOps, b: LockOps) {
        assert(a.has(0) == b.has(0));
        assert(a.has(1) == b.has(1));
        assert(a.has(2) == b.has(2));
        assert(a.has(3) == b.has(3));
        assert(a.has(4) == b.has(4));
        assert(a.has(5) == b.has(5));
    }

    proof fn build_has(p: spec_fn(int) -> bool, k: int) {
    }

    proof fn view_self(a: LockOps) {
    }

    fn same_ops(self, other: LockOps) -> (r: bool) {
        self == other
    }

    fn union(self, other: LockOps) -> (r: LockOps) {
        LockOps {
            lock: self.lock || other.lock,
            unlock: self.unlock || other.unlock,
            rlock: self.rlock || other.rlock,
            runlock: self.runlock || other.runlock,
            deferred_unlock: self.deferred_unlock || other.deferred_unlock,
            deferred_runlock: self.deferred_runlock || other.deferred_runlock,
        }
    }
}

impl LockOps {
    /// Whether `op` is in the set.
    pub open spec fn holds(self, op: LockOp) -> bool {
        match op {
            LockOp::Lock => self.lock,
            LockOp::Unlock => self.unlock,
            LockOp::RLock => self.rlock,
            LockOp::RUnlock => self.runlock,
            LockOp::DeferredUnlock => self.deferred_unlock,
            LockOp::DeferredRUnlock => self.deferred_runlock,
        }
    }

    /// The set of `op` alone.
    pub open spec fn only(op: LockOp) -> LockOps {
        LockOps {
            lock: op == LockOp::Lock,
            unlock: op == LockOp::Unlock,
            rlock: op == LockOp::RLock,
            runlock: op == LockOp::RUnlock,
            deferred_unlock: op == LockOp::DeferredUnlock,
            deferred_runlock: op == LockOp::DeferredRUnlock,
        }
    }

    /// The empty set.
    pub fn none() -> (r: LockOps)
        ensures
            forall|op: LockOp| !#[trigger] r.holds(op),
    {
        LockOps {
            lock: false,
            unlock: false,
            rlock: false,
            runlock: false,
            deferred_unlock: false,
            deferred_runlock: false,
        }
    }

    /// The set of `op` alone.
    pub fn of(op: LockOp) -> (r: LockOps)
        ensures
            r == LockOps::only(op),
    {
        LockOps {
            lock: op == LockOp::Lock,
            unlock: op == LockOp::Unlock,
            rlock: op == LockOp::RLock,
            runlock: op == LockOp::RUnlock,
            deferred_unlock: op == LockOp::DeferredUnlock,
            deferred_runlock: op == LockOp::DeferredRUnlock,
        }
    }

    /// Whether `op` is in the set.
    pub fn contains(self, op: LockOp) -> (r: bool)
        ensures
            r == self.holds(op),
    {
        match op {
            LockOp::Lock => self.lock,
            LockOp::Unlock => self.unlock,
            LockOp::RLock => self.rlock,
            LockOp::RUnlock => self.runlock,
            LockOp::DeferredUnlock => self.deferred_unlock,
            LockOp::DeferredRUnlock => self.deferred_runlock,
        }
    }
}

/// Where an access path starts. An allocation is known by the value that its instruction
/// defines and means something in its own function only; so does a captured variable, known
/// by its place among the free variables.
#[derive(Debug, PartialEq, Eq, PartialOrd, Ord)]
pub enum Root {
    Param(u32),
    Global(String),
    Alloc(u32),
    FreeVar(u32),
    Unknown,
}

/// The model of a [`Root`].
pub enum RootV {
    Param(u32),
    Global(Seq<char>),
    Alloc(u32),
    FreeVar(u32),
    Unknown,
}

impl View for Root {
    type V = RootV;

    open spec fn view(&self) -> RootV {
        match self {
            Root::Param(i) => RootV::Param(*i),
            Root::Global(n) => RootV::Global(n@),
            Root::Alloc(i) => RootV::Alloc(*i),
            Root::FreeVar(i) => RootV::FreeVar(*i),
            Root::Unknown => RootV::Unknown,
        }
    }
}

impl Clone for Root {
    fn clone(&self) -> (r: Root)
        ensures
            r == *self,
    {
        match self {
            Root::Param(i) => Root::Param(*i),
            Root::Global(n) => Root::Global(n.clone()),
            Root::Alloc(i) => Root::Alloc(*i),
            Root::FreeVar(i) => Root::FreeVar(*i),
            Root::Unknown => Root::Unknown,
        }
    }
}

/// An access path: a root and the fields taken from it.
#[derive(Debug, PartialEq, Eq, PartialOrd, Ord)]
pub struct Loc {
    pub root: Root,
    pub path: Vec<u32>,
}

/// The model of a [`Loc`].
pub struct LocV {
    pub root: RootV,
    pub path: Seq<u32>,
}

impl View for Loc {
    type V = LocV;

    open spec fn view(&self) -> LocV {
        LocV { root: self.root@, path: self.path@ }
    }
}

/// The longest field path that is kept.
pub const MAX_LOC_DEPTH: usize = 2;

/// The longest chain of definitions that [`resolve_loc`] follows.
pub const MAX_LOC_HOPS: usize = 32;

/// The unknown location.
pub open spec fn loc_unknown() -> LocV {
    LocV { root: RootV::Unknown, path: Seq::empty() }
}

/// `l`, or the unknown location where the root is unknown or the path too long.
pub open spec fn loc_capped(l: LocV) -> LocV {
    if l.path.len() > MAX_LOC_DEPTH || l.root is Unknown {
        loc_unknown()
    } else {
        l
    }
}

impl Clone for Loc {
    fn clone(&self) -> (r: Loc)
        ensures
            r@ == self@,
    {
        Loc { root: self.root.clone(), path: crate::graph::copy_ids(&self.path) }
    }
}

impl Loc {
    /// The unknown location.
    pub fn unknown() -> (r: Loc)
        ensures
            r@ == loc_unknown(),
    {
        let r = Loc { root: Root::Unknown, path: Vec::new() };
        assert(r@.path =~= Seq::<u32>::empty());
        r
    }

    /// `self`, or the unknown location where the root is unknown or the path too long.
    pub fn capped(self) -> (r: Loc)
        ensures
            r@ == loc_capped(self@),
    {
        if self.path.len() > MAX_LOC_DEPTH {
            return Loc::unknown();
        }
        match self.root {
            Root::Unknown => Loc::unknown(),
            _ => self,
        }
    }

    /// Whether two locations are the same.
    pub fn same(&self, other: &Loc) -> (r: bool)
        ensures
            r == (self@ == other@),
    {
        let roots = match (&self.root, &other.root) {
            (Root::Param(a), Root::Param(b)) => *a == *b,
            (Root::Global(a), Root::Global(b)) => *a == *b,
            (Root::Alloc(a), Root::Alloc(b)) => *a == *b,
            (Root::FreeVar(a), Root::FreeVar(b)) => *a == *b,
            (Root::Unknown, Root::Unknown) => true,
            _ => false,
        };
        if !roots || self.path.len() != other.path.len() {
            return false;
        }
        let mut i: usize = 0;
        while i < self.path.len()
            invariant
                i <= self.path@.len(),
                self.path@.len() == other.path@.len(),
                forall|j: int| 0 <= j < i ==> self.path@[j] == other.path@[j],
            decreases self.path@.len() - i,
        {
            if self.path[i] != other.path[i] {
                return false;
            }
            i += 1;
        }
        assert(self.path@ =~= other.path@);
        true
    }
}

/// Field numbers as integers.
pub open spec fn path_ints(p: Seq<u32>) -> Seq<int> {
    Seq::new(p.len(), |i: int| p[i] as int)
}

/// The sequence by which a root is ordered: its variant, then what it holds. A name ends
/// with 0, and its code points are shifted by one, so that a name that starts another comes
/// first.
pub open spec fn root_key(r: RootV) -> Seq<int> {
    match r {
        RootV::Param(i) => seq![0int, i as int],
        RootV::Global(n) => seq![1int] + Seq::new(n.len(), |i: int| n[i] as int + 1) + seq![0int],
        RootV::Alloc(i) => seq![2int, i as int],
        RootV::FreeVar(i) => seq![3int, i as int],
        RootV::Unknown => seq![4int],
    }
}

/// The sequence by which a location is ordered: by root, then by path.
pub open spec fn loc_key(l: LocV) -> Seq<int> {
    root_key(l.root) + path_ints(l.path)
}

proof fn lemma_path_ints(a: Seq<u32>, b: Seq<u32>)
    requires
        path_ints(a) == path_ints(b),
    ensures
        a == b,
{
    assert(path_ints(a).len() == a.len());
    assert(path_ints(b).len() == b.len());
    assert forall|i: int| 0 <= i < a.len() implies a[i] == b[i] by {
        assert(path_ints(a)[i] == a[i] as int);
        assert(path_ints(b)[i] == b[i] as int);
    }
    assert(a =~= b);
}

proof fn lemma_loc_key_injective(a: LocV, b: LocV)
    requires
        loc_key(a) == loc_key(b),
    ensures
        a == b,
{
    let ka = loc_key(a);
    let kb = loc_key(b);
    assert(ka[0] == kb[0]);
    let ra = root_key(a.root);
    let rb = root_key(b.root);
    match (a.root, b.root) {
        (RootV::Global(n), RootV::Global(m)) => {
            assert(ra.len() == n.len() + 2);
            assert(rb.len() == m.len() + 2);
            assert(ra[n.len() as int + 1] == 0);
            assert(rb[m.len() as int + 1] == 0);
            assert forall|i: int| 0 <= i < n.len() implies ka[i + 1] == n[i] as int + 1 by {
                assert(ra[i + 1] == n[i] as int + 1);
            }
            assert forall|i: int| 0 <= i < m.len() implies kb[i + 1] == m[i] as int + 1 by {
                assert(rb[i + 1] == m[i] as int + 1);
            }
            if n.len() < m.len() {
                crate::text::char_nonneg(m[n.len() as int]);
                assert(ka[n.len() as int + 1] == 0);
                assert(kb[n.len() as int + 1] == m[n.len() as int] as int + 1);
            }
            if m.len() < n.len() {
                crate::text::char_nonneg(n[m.len() as int]);
                assert(kb[m.len() as int + 1] == 0);
                assert(ka[m.len() as int + 1] == n[m.len() as int] as int + 1);
            }
            assert(n.len() == m.len());
            assert forall|i: int| 0 <= i < n.len() implies n[i] == m[i] by {
                assert(ka[i + 1] == kb[i + 1]);
            }
            assert(n =~= m);
        },
        _ => {
            assert(ra.len() == rb.len());
            if ra.len() == 2 {
                assert(ka[1] == kb[1]);
            }
        },
    }
    assert(ra.len() == rb.len());
    assert(ka.skip(ra.len() as int) =~= path_ints(a.path));
    assert(kb.skip(rb.len() as int) =~= path_ints(b.path));
    lemma_path_ints(a.path, b.path);
}

/// Machine integers as integers.
pub open spec fn wide(s: Seq<i64>) -> Seq<int> {
    Seq::new(s.len(), |i: int| s[i] as int)
}

fn key_before(x: &Vec<i64>, y: &Vec<i64>) -> (r: bool)
    ensures
        r == lex_lt(wide(x@), wide(y@)),
{
    let mut i: usize = 0;
    let ghost a = wide(x@);
    let ghost b = wide(y@);
    assert(a.skip(0) =~= a);
    assert(b.skip(0) =~= b);
    while i < x.len() && i < y.len()
        invariant
            i <= x@.len(),
            i <= y@.len(),
            a == wide(x@),
            b == wide(y@),
            lex_lt(a, b) == lex_lt(a.skip(i as int), b.skip(i as int)),
        decreases x@.len() - i,
    {
        let ghost p = a.skip(i as int);
        let ghost q = b.skip(i as int);
        assert(p[0] == x@[i as int] as int && q[0] == y@[i as int] as int);
        if x[i] != y[i] {
            return x[i] < y[i];
        }
        assert(p.drop_first() =~= a.skip(i as int + 1));
        assert(q.drop_first() =~= b.skip(i as int + 1));
        i += 1;
    }
    i < y.len()
}

impl Loc {
    fn key(&self) -> (r: Vec<i64>)
        ensures
            wide(r@) == loc_key(self@),
    {
        let mut k: Vec<i64> = Vec::new();
        match &self.root {
            Root::Param(i) => {
                k.push(0);
                k.push(*i as i64);
            },
            Root::Global(n) => {
                k.push(1);
                let cs = crate::text::chars_of(n.as_str());
                let ghost body = Seq::new(n@.len(), |i: int| n@[i] as int + 1);
                let mut i: usize = 0;
                assert(wide(k@) =~= seq![1int] + body.take(0));
                while i < cs.len()
                    invariant
                        i <= cs@.len(),
                        cs@ == n@,
                        body == Seq::new(n@.len(), |i: int| n@[i] as int + 1),
                        wide(k@) == seq![1int] + body.take(i as int),
                    decreases cs@.len() - i,
                {
                    let ghost before = k@;
                    k.push(crate::text::code_of(cs[i]) as i64 + 1);
                    assert(wide(k@) =~= wide(before).push(body[i as int]));
                    assert(seq![1int] + body.take(i as int + 1) =~= (seq![1int] + body.take(
                        i as int,
                    )).push(body[i as int]));
                    i += 1;
                }
                let ghost before = k@;
                k.push(0);
                assert(body.take(body.len() as int) =~= body);
                assert(wide(k@) =~= wide(before).push(0));
                assert(seq![1int] + body + seq![0int] =~= (seq![1int] + body).push(0));
            },
            Root::Alloc(i) => {
                k.push(2);
                k.push(*i as i64);
            },
            Root::FreeVar(i) => {
                k.push(3);
                k.push(*i as i64);
            },
            Root::Unknown => {
                k.push(4);
            },
        }
        let ghost head = root_key(self.root@);
        assert(wide(k@) =~= head);
        let mut j: usize = 0;
        assert(wide(k@) =~= head + path_ints(self.path@).take(0));
        while j < self.path.len()
            invariant
                j <= self.path@.len(),
                wide(k@) == head + path_ints(self.path@).take(j as int),
            decreases self.path@.len() - j,
        {
            let ghost before = k@;
            k.push(self.path[j] as i64);
            assert(wide(k@) =~= wide(before).push(self.path@[j as int] as int));
            assert(head + path_ints(self.path@).take(j as int + 1) =~= (head + path_ints(
                self.path@,
            ).take(j as int)).push(self.path@[j as int] as int));
            j += 1;
        }
        assert(path_ints(self.path@).take(self.path@.len() as int) =~= path_ints(self.path@));
        k
    }
}

impl Key for Loc {
    open spec fn key_of(v: LocV) -> Seq<int> {
        loc_key(v)
    }

    proof fn key_injective(a: LocV, b: LocV) {
        lemma_loc_key_injective(a, b);
    }

    fn before(&self, other: &Self) -> (r: bool) {
        let x = self.key();
        let y = other.key();
        key_before(&x, &y)
    }
}

/// The union of two maps to sets, taken place by place.
pub open spec fn map_union<S: OpSet>(a: Map<LocV, S>, b: Map<LocV, S>) -> Map<LocV, S> {
    Map::new(
        |l: LocV| a.contains_key(l) || b.contains_key(l),
        |l: LocV|
            if a.contains_key(l) && b.contains_key(l) {
                both(a[l], b[l])
            } else if a.contains_key(l) {
                a[l]
            } else {
                b[l]
            },
    )
}

/// `m` with `ops` added at `l`.
pub open spec fn map_add<S: OpSet>(m: Map<LocV, S>, l: LocV, ops: S) -> Map<LocV, S> {
    m.insert(l, if m.contains_key(l) { both(m[l], ops) } else { ops })
}

/// The model of [`Effects`].
#[verifier::ext_equal]
pub struct EffectsV {
    pub spawns: Spawns,
    pub chan: Map<LocV, ChanOps>,
    pub lock: Map<LocV, LockOps>,
}

/// The effects of nothing.
pub open spec fn effects_empty() -> EffectsV {
    EffectsV { spawns: Spawns::Zero, chan: Map::empty(), lock: Map::empty() }
}

/// Every operation, at the unknown location.
pub open spec fn effects_top() -> EffectsV {
    EffectsV {
        spawns: Spawns::Unbounded,
        chan: Map::empty().insert(
            loc_unknown(),
            ChanOps { make: true, send: true, recv: true, close: true, select: true },
        ),
        lock: Map::empty().insert(
            loc_unknown(),
            LockOps {
                lock: true,
                unlock: true,
                rlock: true,
                runlock: true,
                deferred_unlock: true,
                deferred_runlock: true,
            },
        ),
    }
}

/// The effects of both.
pub open spec fn effects_join(a: EffectsV, b: EffectsV) -> EffectsV {
    EffectsV {
        spawns: a.spawns.max_of(b.spawns),
        chan: map_union(a.chan, b.chan),
        lock: map_union(a.lock, b.lock),
    }
}

/// Whether everything in `a` is in `b`.
pub open spec fn effects_le(a: EffectsV, b: EffectsV) -> bool {
    &&& a.spawns.rank() <= b.spawns.rank()
    &&& map_le(a.chan, b.chan)
    &&& map_le(a.lock, b.lock)
}

/// Whether `b` holds at each place at least what `a` holds.
pub open spec fn map_le<S: OpSet>(a: Map<LocV, S>, b: Map<LocV, S>) -> bool {
    forall|l: LocV| #[trigger]
        a.contains_key(l) ==> b.contains_key(l) && forall|k: int|
            S::is_op(k) && #[trigger] a[l].has(k) ==> b[l].has(k)
}

/// What a function does with goroutines, channels and mutexes.
#[derive(Debug, PartialEq, Eq)]
pub struct Effects {
    pub spawns: Spawns,
    pub chan_ops: SortedMap<Loc, ChanOps>,
    pub lock_ops: SortedMap<Loc, LockOps>,
}

impl View for Effects {
    type V = EffectsV;

    open spec fn view(&self) -> EffectsV {
        EffectsV { spawns: self.spawns, chan: self.chan_ops@, lock: self.lock_ops@ }
    }
}

/// The first `n` entries of a map as a map.
spec fn prefix_map<S: OpSet>(items: Seq<(LocV, S)>, n: nat) -> Map<LocV, S>
    decreases n,
{
    if n == 0 {
        Map::empty()
    } else {
        prefix_map(items, (n - 1) as nat).insert(items[n - 1].0, items[n - 1].1)
    }
}

proof fn lemma_prefix_keys<S: OpSet>(items: Seq<(LocV, S)>, n: nat)
    requires
        n <= items.len(),
        forall|i: int, j: int|
            0 <= i < items.len() && 0 <= j < items.len() && (#[trigger] items[i]).0 == (
            #[trigger] items[j]).0 ==> i == j,
    ensures
        forall|l: LocV| #[trigger]
            prefix_map(items, n).contains_key(l) ==> exists|i: int|
                0 <= i < n && #[trigger] items[i] == (l, prefix_map(items, n)[l]),
        forall|i: int|
            0 <= i < n ==> prefix_map(items, n).contains_pair((#[trigger] items[i]).0, items[i].1),
    decreases n,
{
    if n > 0 {
        let m = (n - 1) as nat;
        lemma_prefix_keys(items, m);
        assert forall|l: LocV| #[trigger] prefix_map(items, n).contains_key(l) implies exists|i: int|
            0 <= i < n && #[trigger] items[i] == (l, prefix_map(items, n)[l]) by {
            if l == items[m as int].0 {
                assert(items[m as int] == (l, prefix_map(items, n)[l]));
            } else {
                let i = choose|i: int|
                    0 <= i < m && #[trigger] items[i] == (l, prefix_map(items, m)[l]);
                assert(items[i] == (l, prefix_map(items, n)[l]));
            }
        }
        assert forall|i: int| 0 <= i < n implies prefix_map(items, n).contains_pair(
            (#[trigger] items[i]).0,
            items[i].1,
        ) by {
            if i < m {
                assert(items[i].0 != items[m as int].0);
            }
        }
    }
}

/// All entries of a sorted map make up the map.
proof fn lemma_prefix_full<S: OpSet>(m: SortedMap<Loc, S>)
    requires
        m.wf(),
    ensures
        prefix_map(m.items(), m.items().len()) == m@,
{
    m.lemma_items();
    lemma_prefix_keys(m.items(), m.items().len());
    assert(prefix_map(m.items(), m.items().len()) =~= m@) by {
        let p = prefix_map(m.items(), m.items().len());
        assert forall|l: LocV| p.contains_key(l) == m@.contains_key(l) && (p.contains_key(l) ==> p[l]
            == m@[l]) by {
            if p.contains_key(l) {
                let i = choose|i: int|
                    0 <= i < m.items().len() && #[trigger] m.items()[i] == (l, p[l]);
                assert(m@.contains_pair(m.items()[i].0, m.items()[i].1));
            }
            if m@.contains_key(l) {
                let i = choose|i: int|
                    0 <= i < m.items().len() && #[trigger] m.items()[i] == (l, m@[l]);
                assert(p.contains_pair(m.items()[i].0, m.items()[i].1));
            }
        }
    }
}

/// Whether two maps are the same.
fn same_map<S: OpSet>(a: &SortedMap<Loc, S>, b: &SortedMap<Loc, S>) -> (r: bool)
    requires
        a.wf(),
        b.wf(),
    ensures
        r == (a@ == b@),
{
    proof {
        a.items_are_listing();
        b.items_are_listing();
        lemma_prefix_full(*a);
        lemma_prefix_full(*b);
    }
    let n = a.len();
    if n != b.len() {
        return false;
    }
    let mut i: usize = 0;
    while i < n
        invariant
            i <= n,
            n == a.items().len(),
            n == b.items().len(),
            a.items() == listing::<Loc, S>(a@),
            b.items() == listing::<Loc, S>(b@),
            forall|j: int| 0 <= j < i ==> a.items()[j] == b.items()[j],
        decreases n - i,
    {
        let x = *a.value_at(i);
        let y = *b.value_at(i);
        proof {
            S::view_self(x);
            S::view_self(y);
        }
        if !a.key_at(i).same(b.key_at(i)) || !x.same_ops(y) {
            assert(a.items()[i as int] != b.items()[i as int]);
            return false;
        }
        i += 1;
    }
    assert(a.items() =~= b.items());
    true
}

fn unite<S: OpSet>(a: S, b: S) -> (r: S)
    ensures
        r == both(a, b),
{
    let r = a.union(b);
    proof {
        lemma_both(a, b);
        S::extensional(r, both(a, b));
    }
    r
}

/// Adds `ops` at `loc`.
pub fn add_at<S: OpSet>(m: &mut SortedMap<Loc, S>, loc: Loc, ops: S)
    requires
        old(m).wf(),
    ensures
        final(m).wf(),
        final(m)@ == map_add(old(m)@, loc@, ops),
{
    proof {
        S::view_self(ops);
    }
    let new = match m.get(&loc) {
        Some(cur) => {
            proof {
                S::view_self(*cur);
            }
            let u = unite(*cur, ops);
            proof {
                S::view_self(u);
            }
            u
        },
        None => ops,
    };
    m.insert(loc, new);
}

fn union_into<S: OpSet>(m: &mut SortedMap<Loc, S>, other: &SortedMap<Loc, S>)
    requires
        old(m).wf(),
        other.wf(),
    ensures
        final(m).wf(),
        final(m)@ == map_union(old(m)@, other@),
{
    let ghost start = m@;
    let ghost items = other.items();
    let mut i: usize = 0;
    proof {
        other.lemma_items();
        assert(map_union(start, Map::<LocV, S>::empty()) =~= start);
    }
    while i < other.len()
        invariant
            i <= items.len(),
            items == other.items(),
            m.wf(),
            m@ == map_union(start, prefix_map(items, i as nat)),
            forall|x: int, y: int|
                0 <= x < items.len() && 0 <= y < items.len() && (#[trigger] items[x]).0 == (
                #[trigger] items[y]).0 ==> x == y,
        decreases items.len() - i,
    {
        let l = other.key_at(i).clone();
        let v = *other.value_at(i);
        proof {
            S::view_self(v);
            lemma_prefix_keys(items, i as nat);
            let p = prefix_map(items, i as nat);
            assert(!p.contains_key(l@)) by {
                if p.contains_key(l@) {
                    let j = choose|j: int| 0 <= j < i && #[trigger] items[j] == (l@, p[l@]);
                    assert(items[j].0 == items[i as int].0);
                }
            }
            assert(map_add(map_union(start, p), l@, v) =~= map_union(start, p.insert(l@, v)));
        }
        add_at(m, l, v);
        i += 1;
    }
    proof {
        lemma_prefix_full(*other);
    }
}

fn copy_map<S: OpSet>(m: &SortedMap<Loc, S>) -> (r: SortedMap<Loc, S>)
    requires
        m.wf(),
    ensures
        r.wf(),
        r@ == m@,
{
    let mut out: SortedMap<Loc, S> = SortedMap::new();
    union_into(&mut out, m);
    assert(out@ =~= m@);
    out
}

/// The union does not depend on the order of its sides.
proof fn map_union_commutes<S: OpSet>(a: Map<LocV, S>, b: Map<LocV, S>)
    ensures
        map_union(a, b) == map_union(b, a),
{
    assert forall|l: LocV| a.contains_key(l) && b.contains_key(l) implies both(a[l], b[l]) == both(
        b[l],
        a[l],
    ) by {
        lemma_both(a[l], b[l]);
        lemma_both(b[l], a[l]);
        S::extensional(both(a[l], b[l]), both(b[l], a[l]));
    }
    assert(map_union(a, b) =~= map_union(b, a));
}

/// What the union of two sets holds.
pub proof fn lemma_both<S: OpSet>(a: S, b: S)
    ensures
        forall|k: int| S::is_op(k) ==> #[trigger] both(a, b).has(k) == (a.has(k) || b.has(k)),
{
    assert forall|k: int| S::is_op(k) implies #[trigger] both(a, b).has(k) == (a.has(k) || b.has(k)) by {
        S::build_has(|k: int| a.has(k) || b.has(k), k);
    }
}

proof fn map_union_absorbs<S: OpSet>(a: Map<LocV, S>, b: Map<LocV, S>)
    requires
        map_le(b, a),
    ensures
        map_union(a, b) == a,
{
    assert forall|l: LocV| a.contains_key(l) && b.contains_key(l) implies both(a[l], b[l]) == a[l] by {
        lemma_both(a[l], b[l]);
        S::extensional(both(a[l], b[l]), a[l]);
    }
    assert(map_union(a, b) =~= a);
}

proof fn map_union_associates<S: OpSet>(a: Map<LocV, S>, b: Map<LocV, S>, c: Map<LocV, S>)
    ensures
        map_union(map_union(a, b), c) == map_union(a, map_union(b, c)),
{
    assert forall|l: LocV|
        a.contains_key(l) && b.contains_key(l) && c.contains_key(l) implies both(
        both(a[l], b[l]),
        c[l],
    ) == both(a[l], both(b[l], c[l])) by {
        lemma_both(a[l], b[l]);
        lemma_both(b[l], c[l]);
        lemma_both(both(a[l], b[l]), c[l]);
        lemma_both(a[l], both(b[l], c[l]));
        S::extensional(both(both(a[l], b[l]), c[l]), both(a[l], both(b[l], c[l])));
    }
    assert(map_union(map_union(a, b), c) =~= map_union(a, map_union(b, c)));
}

/// Joining is commutative.
pub proof fn join_commutes(a: EffectsV, b: EffectsV)
    ensures
        effects_join(a, b) == effects_join(b, a),
{
    map_union_commutes(a.chan, b.chan);
    map_union_commutes(a.lock, b.lock);
}

/// Joining is associative.
pub proof fn join_associates(a: EffectsV, b: EffectsV, c: EffectsV)
    ensures
        effects_join(effects_join(a, b), c) == effects_join(a, effects_join(b, c)),
{
    map_union_associates(a.chan, b.chan, c.chan);
    map_union_associates(a.lock, b.lock, c.lock);
}

/// Joining with what is already there changes nothing; in particular joining is idempotent.
pub proof fn join_absorbs(a: EffectsV, b: EffectsV)
    requires
        effects_le(b, a),
    ensures
        effects_join(a, b) == a,
{
    map_union_absorbs(a.chan, b.chan);
    map_union_absorbs(a.lock, b.lock);
}

/// Joining is idempotent.
pub proof fn join_idempotent(a: EffectsV)
    ensures
        effects_join(a, a) == a,
{
    join_absorbs(a, a);
}

proof fn lemma_union_le<S: OpSet>(a: Map<LocV, S>, b: Map<LocV, S>)
    ensures
        map_le(a, map_union(a, b)),
        map_le(b, map_union(a, b)),
{
    assert forall|l: LocV| a.contains_key(l) && b.contains_key(l) implies forall|k: int|
        S::is_op(k) ==> #[trigger] both(a[l], b[l]).has(k) == (a[l].has(k) || b[l].has(k)) by {
        lemma_both(a[l], b[l]);
    }
}

/// Joining only adds: each side is within the join.
pub proof fn join_monotone(a: EffectsV, b: EffectsV)
    ensures
        effects_le(a, effects_join(a, b)),
        effects_le(b, effects_join(a, b)),
{
    lemma_union_le(a.chan, b.chan);
    lemma_union_le(a.lock, b.lock);
}

/// The empty effects are neutral.
pub proof fn join_empty(a: EffectsV)
    ensures
        effects_join(a, effects_empty()) == a,
        effects_join(effects_empty(), a) == a,
{
    join_absorbs(a, effects_empty());
    join_commutes(a, effects_empty());
}

impl Effects {
    /// The maps are sorted.
    pub open spec fn wf(&self) -> bool {
        self.chan_ops.wf() && self.lock_ops.wf()
    }

    /// No effects.
    pub fn empty() -> (r: Effects)
        ensures
            r.wf(),
            r@ == effects_empty(),
    {
        Effects { spawns: Spawns::Zero, chan_ops: SortedMap::new(), lock_ops: SortedMap::new() }
    }

    /// Every operation, at the unknown location.
    pub fn top() -> (r: Effects)
        ensures
            r.wf(),
            r@ == effects_top(),
    {
        let mut chan_ops: SortedMap<Loc, ChanOps> = SortedMap::new();
        chan_ops.insert(
            Loc::unknown(),
            ChanOps { make: true, send: true, recv: true, close: true, select: true },
        );
        let mut lock_ops: SortedMap<Loc, LockOps> = SortedMap::new();
        lock_ops.insert(
            Loc::unknown(),
            LockOps {
                lock: true,
                unlock: true,
                rlock: true,
                runlock: true,
                deferred_unlock: true,
                deferred_runlock: true,
            },
        );
        Effects { spawns: Spawns::Unbounded, chan_ops, lock_ops }
    }

    /// Whether two effects are the same.
    pub fn same(&self, other: &Effects) -> (r: bool)
        requires
            self.wf(),
            other.wf(),
        ensures
            r == (self@ == other@),
    {
        self.spawns == other.spawns && same_map(&self.chan_ops, &other.chan_ops) && same_map(
            &self.lock_ops,
            &other.lock_ops,
        )
    }

    /// Whether there are no effects at all.
    pub fn is_empty(&self) -> (r: bool)
        requires
            self.wf(),
        ensures
            r == (self@ == effects_empty()),
    {
        proof {
            self.chan_ops.lemma_items();
            self.lock_ops.lemma_items();
            if self.chan_ops.items().len() == 0 {
                assert(self.chan_ops@ =~= Map::<LocV, ChanOps>::empty());
            } else {
                assert(self.chan_ops@.contains_key(self.chan_ops.items()[0].0));
            }
            if self.lock_ops.items().len() == 0 {
                assert(self.lock_ops@ =~= Map::<LocV, LockOps>::empty());
            } else {
                assert(self.lock_ops@.contains_key(self.lock_ops.items()[0].0));
            }
        }
        self.spawns == Spawns::Zero && self.chan_ops.len() == 0 && self.lock_ops.len() == 0
    }

    /// Adds the effects of `other`.
    pub fn join(&mut self, other: &Effects)
        requires
            old(self).wf(),
            other.wf(),
        ensures
            final(self).wf(),
            final(self)@ == effects_join(old(self)@, other@),
    {
        self.spawns = self.spawns.larger(other.spawns);
        union_into(&mut self.chan_ops, &other.chan_ops);
        union_into(&mut self.lock_ops, &other.lock_ops);
    }

    /// A copy.
    pub fn dup(&self) -> (r: Effects)
        requires
            self.wf(),
        ensures
            r.wf(),
            r@ == self@,
    {
        Effects {
            spawns: self.spawns,
            chan_ops: copy_map(&self.chan_ops),
            lock_ops: copy_map(&self.lock_ops),
        }
    }
}

/// The models of a vector of locations.
pub open spec fn locs(v: Seq<Loc>) -> Seq<LocV> {
    Seq::new(v.len(), |i: int| v[i]@)
}

/// Location `i` of `s`, unknown where there is none.
pub open spec fn slot(s: Seq<LocV>, i: u32) -> LocV {
    if i < s.len() {
        s[i as int]
    } else {
        loc_unknown()
    }
}

/// The location that path `tail` leads to from `base`.
pub open spec fn extended(base: LocV, tail: Seq<u32>) -> LocV {
    loc_capped(LocV { root: base.root, path: base.path + tail })
}

/// A callee's location as its caller sees it: paths from parameters and captured variables
/// continue from the caller's arguments and bindings, globals stay, and what the callee
/// allocates is unknown to the caller.
pub open spec fn rebased(l: LocV, args: Seq<LocV>, fvs: Seq<LocV>) -> LocV {
    match l.root {
        RootV::Param(i) => extended(slot(args, i), l.path),
        RootV::FreeVar(i) => extended(slot(fvs, i), l.path),
        RootV::Global(_) => l,
        RootV::Alloc(_) => loc_unknown(),
        RootV::Unknown => loc_unknown(),
    }
}

/// Whether `l` holds operation `k` in `m` and becomes `to` at the caller.
pub open spec fn moves_op<S: OpSet>(
    m: Map<LocV, S>,
    args: Seq<LocV>,
    fvs: Seq<LocV>,
    l: LocV,
    to: LocV,
    k: int,
) -> bool {
    m.contains_key(l) && rebased(l, args, fvs) == to && m[l].has(k)
}

/// Whether `l` is in `m` and becomes `to` at the caller.
pub open spec fn moves<S: OpSet>(
    m: Map<LocV, S>,
    args: Seq<LocV>,
    fvs: Seq<LocV>,
    l: LocV,
    to: LocV,
) -> bool {
    m.contains_key(l) && rebased(l, args, fvs) == to
}

/// A callee's operations as its caller sees them: at each place everything that some place of
/// the callee brings there.
pub open spec fn rebased_map<S: OpSet>(
    m: Map<LocV, S>,
    args: Seq<LocV>,
    fvs: Seq<LocV>,
) -> Map<LocV, S> {
    Map::new(
        |to: LocV| exists|l: LocV| #[trigger] moves(m, args, fvs, l, to),
        |to: LocV| S::build(|k: int| exists|l: LocV| #[trigger] moves_op(m, args, fvs, l, to, k)),
    )
}

/// A callee's effects as its caller sees them.
pub open spec fn effects_rebased(e: EffectsV, args: Seq<LocV>, fvs: Seq<LocV>) -> EffectsV {
    EffectsV {
        spawns: e.spawns,
        chan: rebased_map(e.chan, args, fvs),
        lock: rebased_map(e.lock, args, fvs),
    }
}

proof fn lemma_rebased_insert<S: OpSet>(
    m: Map<LocV, S>,
    args: Seq<LocV>,
    fvs: Seq<LocV>,
    l: LocV,
    ops: S,
)
    requires
        !m.contains_key(l),
    ensures
        rebased_map(m.insert(l, ops), args, fvs) == map_add(
            rebased_map(m, args, fvs),
            rebased(l, args, fvs),
            ops,
        ),
{
    let n = m.insert(l, ops);
    let to0 = rebased(l, args, fvs);
    let a = rebased_map(n, args, fvs);
    let b = map_add(rebased_map(m, args, fvs), to0, ops);
    assert forall|to: LocV|
        #![trigger a.contains_key(to)]
        #![trigger b.contains_key(to)]
        #![trigger a[to]]
        #![trigger b[to]]
        a.contains_key(to) == b.contains_key(to) && (a.contains_key(to) ==> a[to] == b[to]) by {
        if a.contains_key(to) {
            let x = choose|x: LocV| #[trigger] moves(n, args, fvs, x, to);
            if x != l {
                assert(moves(m, args, fvs, x, to));
            }
        }
        if rebased_map(m, args, fvs).contains_key(to) {
            let x = choose|x: LocV| #[trigger] moves(m, args, fvs, x, to);
            assert(moves(n, args, fvs, x, to));
        }
        assert(moves(n, args, fvs, l, to0));
        if a.contains_key(to) {
            let old = rebased_map(m, args, fvs);
            assert forall|k: int| S::is_op(k) implies #[trigger] a[to].has(k) == b[to].has(k) by {
                S::build_has(
                    |k: int| exists|x: LocV| #[trigger] moves_op(n, args, fvs, x, to, k),
                    k,
                );
                S::build_has(
                    |k: int| exists|x: LocV| #[trigger] moves_op(m, args, fvs, x, to, k),
                    k,
                );
                if to == to0 && old.contains_key(to) {
                    lemma_both(old[to], ops);
                }
                if exists|x: LocV| #[trigger] moves_op(n, args, fvs, x, to, k) {
                    let x = choose|x: LocV| #[trigger] moves_op(n, args, fvs, x, to, k);
                    if x != l {
                        assert(moves_op(m, args, fvs, x, to, k));
                        assert(moves(m, args, fvs, x, to));
                    }
                }
                if exists|x: LocV| #[trigger] moves_op(m, args, fvs, x, to, k) {
                    let x = choose|x: LocV| #[trigger] moves_op(m, args, fvs, x, to, k);
                    assert(moves_op(n, args, fvs, x, to, k));
                }
                if to == to0 && ops.has(k) {
                    assert(moves_op(n, args, fvs, l, to, k));
                }
            }
            S::extensional(a[to], b[to]);
        }
    }
    assert(a.dom() =~= b.dom());
    assert(a =~= b);
}

/// Location `i` of `v`, unknown where there is none.
fn slot_of(v: &Vec<Loc>, i: u32) -> (r: Loc)
    ensures
        r@ == slot(locs(v@), i),
{
    if (i as usize) < v.len() {
        v[i as usize].clone()
    } else {
        Loc::unknown()
    }
}

fn extend_loc(base: Loc, tail: &Vec<u32>) -> (r: Loc)
    ensures
        r@ == extended(base@, tail@),
{
    let mut path = base.path;
    let ghost head = path@;
    let mut i: usize = 0;
    assert(head + tail@.take(0) =~= head);
    while i < tail.len()
        invariant
            i <= tail@.len(),
            path@ == head + tail@.take(i as int),
        decreases tail@.len() - i,
    {
        path.push(tail[i]);
        assert((head + tail@.take(i as int)).push(tail@[i as int]) =~= head + tail@.take(
            i as int + 1,
        ));
        i += 1;
    }
    assert(tail@.take(tail@.len() as int) =~= tail@);
    Loc { root: base.root, path }.capped()
}

/// A callee's location as its caller sees it.
pub fn rebase_loc(loc: &Loc, args: &Vec<Loc>, fvs: &Vec<Loc>) -> (r: Loc)
    ensures
        r@ == rebased(loc@, locs(args@), locs(fvs@)),
{
    match &loc.root {
        Root::Param(i) => extend_loc(slot_of(args, *i), &loc.path),
        Root::FreeVar(i) => extend_loc(slot_of(fvs, *i), &loc.path),
        Root::Global(_) => loc.clone(),
        Root::Alloc(_) => Loc::unknown(),
        Root::Unknown => Loc::unknown(),
    }
}

/// A callee's operations as its caller sees them.
pub fn rebase_map<S: OpSet>(m: &SortedMap<Loc, S>, args: &Vec<Loc>, fvs: &Vec<Loc>) -> (r: SortedMap<
    Loc,
    S,
>)
    requires
        m.wf(),
    ensures
        r.wf(),
        r@ == rebased_map(m@, locs(args@), locs(fvs@)),
{
    let mut out: SortedMap<Loc, S> = SortedMap::new();
    let ghost items = m.items();
    let ghost av = locs(args@);
    let ghost fv = locs(fvs@);
    let mut i: usize = 0;
    proof {
        m.lemma_items();
        assert(rebased_map(Map::<LocV, S>::empty(), av, fv) =~= Map::<LocV, S>::empty());
    }
    while i < m.len()
        invariant
            i <= items.len(),
            items == m.items(),
            av == locs(args@),
            fv == locs(fvs@),
            out.wf(),
            out@ == rebased_map(prefix_map(items, i as nat), av, fv),
            forall|x: int, y: int|
                0 <= x < items.len() && 0 <= y < items.len() && (#[trigger] items[x]).0 == (
                #[trigger] items[y]).0 ==> x == y,
        decreases items.len() - i,
    {
        let to = rebase_loc(m.key_at(i), args, fvs);
        let v = *m.value_at(i);
        proof {
            S::view_self(v);
            lemma_prefix_keys(items, i as nat);
            let p = prefix_map(items, i as nat);
            let l = items[i as int].0;
            assert(!p.contains_key(l)) by {
                if p.contains_key(l) {
                    let j = choose|j: int| 0 <= j < i && #[trigger] items[j] == (l, p[l]);
                    assert(items[j].0 == items[i as int].0);
                }
            }
            lemma_rebased_insert(p, av, fv, l, v);
        }
        add_at(&mut out, to, v);
        i += 1;
    }
    proof {
        lemma_prefix_full(*m);
    }
    out
}

/// A callee's effects as its caller sees them, given where the call's arguments and the
/// closure's bindings are.
pub fn rebase(callee: &Effects, caller_args: &Vec<Loc>, caller_fvs: &Vec<Loc>) -> (r: Effects)
    requires
        callee.wf(),
    ensures
        r.wf(),
        r@ == effects_rebased(callee@, locs(caller_args@), locs(caller_fvs@)),
{
    Effects {
        spawns: callee.spawns,
        chan_ops: rebase_map(&callee.chan_ops, caller_args, caller_fvs),
        lock_ops: rebase_map(&callee.lock_ops, caller_args, caller_fvs),
    }
}

/// Seen from a caller, a location's path never exceeds the depth cap: what would is unknown.
pub proof fn rebase_keeps_cap(l: LocV, args: Seq<LocV>, fvs: Seq<LocV>)
    requires
        loc_capped(l) == l,
    ensures
        loc_capped(rebased(l, args, fvs)) == rebased(l, args, fvs),
        rebased(l, args, fvs).path.len() <= MAX_LOC_DEPTH,
{
}

/// The value that an operation defines.
pub open spec fn dst_of(op: Op) -> Option<ValueId> {
    match op {
        Op::Assign { dst, .. } => Some(dst),
        Op::Alloc { dst, .. } => Some(dst),
        Op::Load { dst, .. } => Some(dst),
        Op::FieldAddr { dst, .. } => Some(dst),
        Op::Field { dst, .. } => Some(dst),
        Op::IndexAddr { dst, .. } => Some(dst),
        Op::Index { dst, .. } => Some(dst),
        Op::Lookup { dst, .. } => Some(dst),
        Op::Slice { dst, .. } => Some(dst),
        Op::BinOp { dst, .. } => Some(dst),
        Op::UnOp { dst, .. } => Some(dst),
        Op::Convert { dst, .. } => Some(dst),
        Op::Extract { dst, .. } => Some(dst),
        Op::Phi { dst, .. } => Some(dst),
        Op::MakeClosure { dst, .. } => Some(dst),
        Op::MakeInterface { dst, .. } => Some(dst),
        Op::Make { dst, .. } => Some(dst),
        Op::Recv { dst, .. } => Some(dst),
        Op::Select { dst, .. } => Some(dst),
        Op::TypeAssert { dst, .. } => Some(dst),
        Op::Call { dst, .. } => dst,
        Op::Havoc { dst } => dst,
        _ => None,
    }
}

/// The value that an operation defines.
pub fn op_dst(op: &Op) -> (r: Option<ValueId>)
    ensures
        r == dst_of(*op),
{
    match op {
        Op::Assign { dst, .. }
        | Op::Alloc { dst, .. }
        | Op::Load { dst, .. }
        | Op::FieldAddr { dst, .. }
        | Op::Field { dst, .. }
        | Op::IndexAddr { dst, .. }
        | Op::Index { dst, .. }
        | Op::Lookup { dst, .. }
        | Op::Slice { dst, .. }
        | Op::BinOp { dst, .. }
        | Op::UnOp { dst, .. }
        | Op::Convert { dst, .. }
        | Op::Extract { dst, .. }
        | Op::Phi { dst, .. }
        | Op::MakeClosure { dst, .. }
        | Op::MakeInterface { dst, .. }
        | Op::Make { dst, .. }
        | Op::Recv { dst, .. }
        | Op::Select { dst, .. }
        | Op::TypeAssert { dst, .. } => Some(*dst),
        Op::Call { dst, .. } | Op::Havoc { dst } => *dst,
        _ => None,
    }
}

/// The last of the first `k` instructions that defines `v`.
pub open spec fn last_def(f: &Function, v: ValueId, k: int) -> Option<Site>
    decreases k,
{
    if k <= 0 {
        None
    } else if dst_of(f.op_at(f.sites()[k - 1])) == Some(v) {
        Some(f.sites()[k - 1])
    } else {
        last_def(f, v, k - 1)
    }
}

/// The operation that defines `v`, the last one where there are several.
pub open spec fn def_of(f: &Function, v: ValueId) -> Option<Op> {
    match last_def(f, v, f.sites().len() as int) {
        Some(s) => Some(f.op_at(s)),
        None => None,
    }
}

/// The operation among `sites` that defines `v`.
fn find_def<'a>(f: &'a Function, sites: &Vec<Site>, v: ValueId) -> (r: Option<&'a Op>)
    requires
        sites@ == f.sites(),
        forall|k: int| 0 <= k < sites@.len() ==> f.has_site(#[trigger] sites@[k]),
    ensures
        match r {
            Some(op) => def_of(f, v) == Some(*op),
            None => def_of(f, v) is None,
        },
{
    let mut k: usize = sites.len();
    while k > 0
        invariant
            k <= sites@.len(),
            sites@ == f.sites(),
            forall|k: int| 0 <= k < sites@.len() ==> f.has_site(#[trigger] sites@[k]),
            last_def(f, v, f.sites().len() as int) == last_def(f, v, k as int),
        decreases k,
    {
        let op = f.op(sites[k - 1]);
        if op_dst(op) == Some(v) {
            return Some(op);
        }
        k -= 1;
    }
    None
}

/// The access path of `cur` with `path` appended, after `hops` steps along definitions.
pub open spec fn resolve_from(f: &Function, cur: ValueId, path: Seq<u32>, hops: nat) -> LocV
    decreases MAX_LOC_HOPS + 1 - hops,
{
    if path.len() > MAX_LOC_DEPTH || hops > MAX_LOC_HOPS {
        loc_unknown()
    } else {
        match f.kind_of(cur) {
            ValueKind::Param => match first_index(f.params@, cur, 0) {
                Some(i) => LocV { root: RootV::Param(i as u32), path },
                None => loc_unknown(),
            },
            ValueKind::FreeVar => match first_index(f.free_vars@, cur, 0) {
                Some(i) => LocV { root: RootV::FreeVar(i as u32), path },
                None => loc_unknown(),
            },
            ValueKind::Global(name) => LocV { root: RootV::Global(name@), path },
            _ => match def_of(f, cur) {
                Some(Op::FieldAddr { dst, base, field }) => resolve_from(
                    f,
                    base,
                    seq![field] + path,
                    hops + 1,
                ),
                Some(Op::Alloc { dst, .. }) => LocV { root: RootV::Alloc(dst.0), path },
                Some(Op::Make { dst, .. }) => LocV { root: RootV::Alloc(dst.0), path },
                Some(Op::Load { dst, addr }) => resolve_from(f, addr, path, hops + 1),
                Some(Op::Assign { dst, src }) => resolve_from(f, src, path, hops + 1),
                _ => loc_unknown(),
            },
        }
    }
}

/// The access path of `v`: parameters, captured variables, globals and allocations are roots,
/// a field address adds a field, loads and assignments are transparent.
pub open spec fn resolved(f: &Function, v: ValueId) -> LocV {
    resolve_from(f, v, Seq::empty(), 0)
}

/// The access path of `v`. A cell and what is loaded from it share a location.
pub fn resolve_loc(f: &Function, v: ValueId) -> (r: Loc)
    ensures
        r@ == resolved(f, v),
{
    let sites = f.all_sites();
    let mut cur = v;
    let mut path: Vec<u32> = Vec::new();
    let mut hops: usize = 0;
    assert(path@ =~= Seq::<u32>::empty());
    loop
        invariant
            sites@ == f.sites(),
            forall|k: int| 0 <= k < sites@.len() ==> f.has_site(#[trigger] sites@[k]),
            hops <= MAX_LOC_HOPS + 1,
            resolved(f, v) == resolve_from(f, cur, path@, hops as nat),
        decreases MAX_LOC_HOPS + 2 - hops,
    {
        if path.len() > MAX_LOC_DEPTH || hops > MAX_LOC_HOPS {
            return Loc::unknown();
        }
        hops += 1;
        match f.value_kind(cur) {
            Some(ValueKind::Param) => {
                return match position_of(&f.params, cur) {
                    Some(i) => Loc { root: Root::Param(i as u32), path },
                    None => Loc::unknown(),
                };
            },
            Some(ValueKind::FreeVar) => {
                return match position_of(&f.free_vars, cur) {
                    Some(i) => Loc { root: Root::FreeVar(i as u32), path },
                    None => Loc::unknown(),
                };
            },
            Some(ValueKind::Global(name)) => {
                return Loc { root: Root::Global(name.clone()), path };
            },
            _ => {},
        }
        match find_def(f, &sites, cur) {
            Some(Op::FieldAddr { base, field, .. }) => {
                let ghost before = path@;
                path.insert(0, *field);
                assert(path@ =~= seq![*field] + before);
                cur = *base;
            },
            Some(Op::Alloc { dst, .. }) | Some(Op::Make { dst, .. }) => {
                return Loc { root: Root::Alloc(dst.0), path };
            },
            Some(Op::Load { addr, .. }) => {
                cur = *addr;
            },
            Some(Op::Assign { src, .. }) => {
                cur = *src;
            },
            _ => {
                return Loc::unknown();
            },
        }
    }
}

proof fn lemma_resolve_capped(f: &Function, cur: ValueId, path: Seq<u32>, hops: nat)
    ensures
        loc_capped(resolve_from(f, cur, path, hops)) == resolve_from(f, cur, path, hops),
    decreases MAX_LOC_HOPS + 1 - hops,
{
    if path.len() > MAX_LOC_DEPTH || hops > MAX_LOC_HOPS {
    } else {
        match def_of(f, cur) {
            Some(Op::FieldAddr { dst, base, field }) => {
                lemma_resolve_capped(f, base, seq![field] + path, hops + 1);
            },
            Some(Op::Load { dst, addr }) => {
                lemma_resolve_capped(f, addr, path, hops + 1);
            },
            Some(Op::Assign { dst, src }) => {
                lemma_resolve_capped(f, src, path, hops + 1);
            },
            _ => {},
        }
    }
}

/// A resolved location never has a path longer than the depth cap.
pub proof fn resolve_within_cap(f: &Function, v: ValueId)
    ensures
        resolved(f, v).path.len() <= MAX_LOC_DEPTH,
        loc_capped(resolved(f, v)) == resolved(f, v),
{
    lemma_resolve_capped(f, v, Seq::empty(), 0);
}

/// What the first `k` instructions say of the bindings of closures over `c`: nothing, the one
/// list of bindings, or `Some(None)` where there are several closures.
pub open spec fn bindings_upto(f: &Function, c: FuncId, k: int) -> Option<Option<Seq<ValueId>>>
    decreases k,
{
    if k <= 0 {
        None
    } else {
        let before = bindings_upto(f, c, k - 1);
        match f.op_at(f.sites()[k - 1]) {
            Op::MakeClosure { dst, func, bindings } => if func == c {
                match before {
                    None => Some(Some(bindings@)),
                    Some(_) => Some(None),
                }
            } else {
                before
            },
            _ => before,
        }
    }
}

/// The bindings of the closure that `f` makes over `c`, if it makes exactly one.
pub open spec fn bindings_of(f: &Function, c: FuncId) -> Option<Seq<ValueId>> {
    match bindings_upto(f, c, f.sites().len() as int) {
        Some(Some(b)) => Some(b),
        _ => None,
    }
}

/// The bindings of the closure that `f` makes over `c`, if it makes exactly one. Several are
/// ambiguous.
pub fn closure_bindings<'a>(f: &'a Function, c: FuncId) -> (r: Option<&'a Vec<ValueId>>)
    ensures
        match r {
            Some(b) => bindings_of(f, c) == Some(b@),
            None => bindings_of(f, c) is None,
        },
{
    let sites = f.all_sites();
    let mut found: Option<&'a Vec<ValueId>> = None;
    let mut several = false;
    let mut k: usize = 0;
    while k < sites.len()
        invariant
            k <= sites@.len(),
            sites@ == f.sites(),
            forall|k: int| 0 <= k < sites@.len() ==> f.has_site(#[trigger] sites@[k]),
            bindings_upto(f, c, k as int) == (if several {
                Some(None)
            } else {
                match found {
                    Some(b) => Some(Some(b@)),
                    None => None,
                }
            }),
        decreases sites@.len() - k,
    {
        if let Op::MakeClosure { func, bindings, .. } = f.op(sites[k]) {
            if *func == c {
                if several || found.is_some() {
                    several = true;
                } else {
                    found = Some(bindings);
                }
            }
        }
        k += 1;
    }
    if several {
        None
    } else {
        found
    }
}

/// Where each of `vs` is.
pub open spec fn resolved_all(f: &Function, vs: Seq<ValueId>) -> Seq<LocV> {
    Seq::new(vs.len(), |i: int| resolved(f, vs[i]))
}

/// Where the variables that `f` captures for `c` are; nothing where that is ambiguous.
pub open spec fn fv_slots(f: &Function, c: FuncId) -> Seq<LocV> {
    match bindings_of(f, c) {
        Some(b) => resolved_all(f, b),
        None => Seq::empty(),
    }
}

/// Where each of `vs` is.
pub fn resolve_all(f: &Function, vs: &Vec<ValueId>) -> (r: Vec<Loc>)
    ensures
        locs(r@) == resolved_all(f, vs@),
{
    let mut out: Vec<Loc> = Vec::new();
    let mut i: usize = 0;
    while i < vs.len()
        invariant
            i <= vs@.len(),
            out@.len() == i,
            forall|j: int| 0 <= j < i ==> (#[trigger] out@[j])@ == resolved(f, vs@[j]),
        decreases vs@.len() - i,
    {
        out.push(resolve_loc(f, vs[i]));
        i += 1;
    }
    assert(locs(out@) =~= resolved_all(f, vs@));
    out
}

/// Where the variables that `f` captures for `c` are.
pub fn fv_locs(f: &Function, c: FuncId) -> (r: Vec<Loc>)
    ensures
        locs(r@) == fv_slots(f, c),
{
    match closure_bindings(f, c) {
        Some(b) => resolve_all(f, b),
        None => {
            let r: Vec<Loc> = Vec::new();
            assert(locs(r@) =~= Seq::<LocV>::empty());
            r
        },
    }
}

/// Where captured variable `i` of `c` is in `f`.
pub fn fv_loc(f: &Function, c: FuncId, i: u32) -> (r: Loc)
    ensures
        r@ == slot(fv_slots(f, c), i),
{
    let v = fv_locs(f, c);
    slot_of(&v, i)
}

/// Where argument `i` is in `f`.
pub fn arg_loc(f: &Function, args: &Vec<ValueId>, i: u32) -> (r: Loc)
    ensures
        r@ == slot(resolved_all(f, args@), i),
{
    if (i as usize) < args.len() {
        resolve_loc(f, args[i as usize])
    } else {
        Loc::unknown()
    }
}

/// The effect of a mutex operation.
pub open spec fn lock_op_of(kind: LockKind) -> LockOp {
    match kind {
        LockKind::Lock => LockOp::Lock,
        LockKind::Unlock => LockOp::Unlock,
        LockKind::RLock => LockOp::RLock,
        LockKind::RUnlock => LockOp::RUnlock,
    }
}

/// The effect of deferring `op`: unlocks happen when the function returns.
pub open spec fn deferred_of(op: LockOp) -> LockOp {
    match op {
        LockOp::Unlock => LockOp::DeferredUnlock,
        LockOp::RUnlock => LockOp::DeferredRUnlock,
        other => other,
    }
}

fn lock_op(kind: LockKind) -> (r: LockOp)
    ensures
        r == lock_op_of(kind),
{
    match kind {
        LockKind::Lock => LockOp::Lock,
        LockKind::Unlock => LockOp::Unlock,
        LockKind::RLock => LockOp::RLock,
        LockKind::RUnlock => LockOp::RUnlock,
    }
}

fn deferred(op: LockOp) -> (r: LockOp)
    ensures
        r == deferred_of(op),
{
    match op {
        LockOp::Unlock => LockOp::DeferredUnlock,
        LockOp::RUnlock => LockOp::DeferredRUnlock,
        other => other,
    }
}

/// `e` with a channel operation added.
pub open spec fn add_chan(e: EffectsV, l: LocV, op: ChanOp) -> EffectsV {
    EffectsV { chan: map_add(e.chan, l, ChanOps::only(op)), ..e }
}

/// `e` with a mutex operation added.
pub open spec fn add_lock(e: EffectsV, l: LocV, op: LockOp) -> EffectsV {
    EffectsV { lock: map_add(e.lock, l, LockOps::only(op)), ..e }
}

/// `e` with a select on the first `n` of `arms` added.
pub open spec fn add_arms(f: &Function, e: EffectsV, arms: Seq<SelectArm>, n: int) -> EffectsV
    decreases n,
{
    if n <= 0 {
        e
    } else {
        add_chan(add_arms(f, e, arms, n - 1), resolved(f, arms[n - 1].chan), ChanOp::Select)
    }
}

/// What a static call to `c` with `args` does, seen from `f`.
pub open spec fn call_effects(
    f: &Function,
    t: TableV,
    c: FuncId,
    args: Seq<ValueId>,
) -> EffectsV {
    effects_rebased(t.effects_of(c), resolved_all(f, args), fv_slots(f, c))
}

/// `e` with the effects of a `go` or `defer` statement added. Closing a channel and unlocking a
/// mutex are recorded at the argument; any other static callee counts as a call.
pub open spec fn add_go_defer(
    p: &Program,
    f: &Function,
    t: TableV,
    e: EffectsV,
    callee: Callee,
    args: Seq<ValueId>,
    is_defer: bool,
) -> EffectsV {
    match callee {
        Callee::Builtin(name) => if name@ == "close"@ {
            add_chan(e, slot(resolved_all(f, args), 0), ChanOp::Close)
        } else {
            e
        },
        Callee::Static(c) => match lock_kind_of(p.name_of(c)) {
            Some(kind) => {
                let op = if is_defer { deferred_of(lock_op_of(kind)) } else { lock_op_of(kind) };
                add_lock(e, slot(resolved_all(f, args), 0), op)
            },
            None => effects_join(e, call_effects(f, t, c, args)),
        },
        _ => e,
    }
}

/// How many goroutines a `go` statement in block `b` starts.
pub open spec fn spawns_in(f: &Function, b: int) -> Spawns {
    if reaches_plus(succ_graph(f), b, b) { Spawns::Unbounded } else { Spawns::Bounded }
}

/// `e` with the effects of the instruction at `s` added.
pub open spec fn add_instr(
    p: &Program,
    f: &Function,
    t: TableV,
    e: EffectsV,
    s: Site,
) -> EffectsV {
    match f.op_at(s) {
        Op::Make { dst, kind, .. } => if kind == MakeKind::Chan {
            add_chan(e, resolved(f, dst), ChanOp::Make)
        } else {
            e
        },
        Op::Send { chan, .. } => add_chan(e, resolved(f, chan), ChanOp::Send),
        Op::Recv { chan, .. } => add_chan(e, resolved(f, chan), ChanOp::Recv),
        Op::CloseChan { chan } => add_chan(e, resolved(f, chan), ChanOp::Close),
        Op::Select { arms, .. } => add_arms(f, e, arms@, arms@.len() as int),
        Op::Lock { kind, mu } => add_lock(e, resolved(f, mu), lock_op_of(kind)),
        Op::Call { callee, args, .. } => match callee {
            Callee::Static(c) => effects_join(e, call_effects(f, t, c, args@)),
            _ => e,
        },
        Op::Go { callee, args } => add_go_defer(
            p,
            f,
            t,
            EffectsV { spawns: e.spawns.max_of(spawns_in(f, s.0 as int)), ..e },
            callee,
            args@,
            false,
        ),
        Op::Defer { callee, args } => add_go_defer(p, f, t, e, callee, args@, true),
        _ => e,
    }
}

/// The effects of the first `k` instructions.
pub open spec fn own_effects(p: &Program, f: &Function, t: TableV, k: int) -> EffectsV
    decreases k,
{
    if k <= 0 {
        effects_empty()
    } else {
        add_instr(p, f, t, own_effects(p, f, t, k - 1), f.sites()[k - 1])
    }
}

/// The function that an operation names statically in a call, `go` or `defer`.
pub open spec fn static_callee(op: Op) -> Option<FuncId> {
    match op {
        Op::Call { callee: Callee::Static(c), .. } => Some(c),
        Op::Go { callee: Callee::Static(c), .. } => Some(c),
        Op::Defer { callee: Callee::Static(c), .. } => Some(c),
        _ => None,
    }
}

/// Whether one of the first `k` instructions names `c` statically.
pub open spec fn names_statically(f: &Function, c: FuncId, k: int) -> bool {
    exists|i: int| 0 <= i < k && static_callee(f.op_at(#[trigger] f.sites()[i])) == Some(c)
}

/// `e` with the effects of the first `k` of `callees` added that `f` reaches by dispatch only:
/// nothing is known of their arguments.
pub open spec fn add_dispatched(
    f: &Function,
    t: TableV,
    e: EffectsV,
    callees: Seq<FuncId>,
    k: int,
) -> EffectsV
    decreases k,
{
    if k <= 0 {
        e
    } else {
        let before = add_dispatched(f, t, e, callees, k - 1);
        if names_statically(f, callees[k - 1], f.sites().len() as int) {
            before
        } else {
            effects_join(
                before,
                effects_rebased(t.effects_of(callees[k - 1]), Seq::empty(), Seq::empty()),
            )
        }
    }
}

/// The effects of function `id`: its own operations, its static callees' effects seen through
/// the arguments of each call, and the effects of what it reaches by dispatch at unknown
/// locations. A function without a body may do anything.
pub open spec fn collected(p: &Program, id: FuncId, graph: &CallGraph, t: TableV) -> EffectsV {
    match p.body(id) {
        None => effects_top(),
        Some(f) => add_dispatched(
            &f,
            t,
            own_effects(p, &f, t, f.sites().len() as int),
            graph.callees_of(id),
            graph.callees_of(id).len() as int,
        ),
    }
}

fn join_call(f: &Function, e: &mut Effects, t: &SummaryTable, c: FuncId, args: &Vec<ValueId>)
    requires
        old(e).wf(),
        t.wf(),
    ensures
        final(e).wf(),
        final(e)@ == effects_join(old(e)@, call_effects(f, t@, c, args@)),
{
    let al = resolve_all(f, args);
    let fl = fv_locs(f, c);
    match t.effects(c) {
        Some(ce) => {
            e.join(&rebase(ce, &al, &fl));
        },
        None => {
            e.join(&rebase(&Effects::top(), &al, &fl));
        },
    }
}

/// Adds the effects of a `go` or `defer` statement; the result is the static callee.
fn record_go_defer_callee(
    p: &Program,
    f: &Function,
    e: &mut Effects,
    t: &SummaryTable,
    callee: &Callee,
    args: &Vec<ValueId>,
    is_defer: bool,
) -> (r: Option<FuncId>)
    requires
        old(e).wf(),
        t.wf(),
    ensures
        final(e).wf(),
        final(e)@ == add_go_defer(p, f, t@, old(e)@, *callee, args@, is_defer),
        r == (match *callee {
            Callee::Static(c) => Some(c),
            _ => None,
        }),
{
    match callee {
        Callee::Builtin(name) => {
            if same_text(name.as_str(), "close") {
                let l = arg_loc(f, args, 0);
                add_at(&mut e.chan_ops, l, ChanOps::of(ChanOp::Close));
            }
            None
        },
        Callee::Static(c) => {
            match lock_kind(p.func_name(*c)) {
                Some(kind) => {
                    let op = lock_op(kind);
                    let op = if is_defer { deferred(op) } else { op };
                    let l = arg_loc(f, args, 0);
                    add_at(&mut e.lock_ops, l, LockOps::of(op));
                },
                None => {
                    join_call(f, e, t, *c, args);
                },
            }
            Some(*c)
        },
        _ => None,
    }
}

fn has_func(v: &Vec<FuncId>, c: FuncId) -> (r: bool)
    ensures
        r == v@.contains(c),
{
    let mut i: usize = 0;
    while i < v.len()
        invariant
            i <= v@.len(),
            forall|j: int| 0 <= j < i ==> v@[j] != c,
        decreases v@.len() - i,
    {
        if v[i] == c {
            return true;
        }
        i += 1;
    }
    false
}

fn record_arms(f: &Function, e: &mut Effects, arms: &Vec<SelectArm>)
    requires
        old(e).wf(),
    ensures
        final(e).wf(),
        final(e)@ == add_arms(f, old(e)@, arms@, arms@.len() as int),
{
    let mut i: usize = 0;
    while i < arms.len()
        invariant
            i <= arms@.len(),
            e.wf(),
            e@ == add_arms(f, old(e)@, arms@, i as int),
        decreases arms@.len() - i,
    {
        let l = resolve_loc(f, arms[i].chan);
        add_at(&mut e.chan_ops, l, ChanOps::of(ChanOp::Select));
        i += 1;
    }
}

/// The effects of function `id`, given the summaries of what it calls.
pub fn collect(p: &Program, id: FuncId, graph: &CallGraph, t: &SummaryTable) -> (r: Effects)
    requires
        t.wf(),
    ensures
        r.wf(),
        r@ == collected(p, id, graph, t@),
{
    let f = match p.func(id) {
        Some(f) => f,
        None => {
            return Effects::top();
        },
    };
    let cyclic = cyclic_blocks(f);
    let sites = f.all_sites();
    let mut e = Effects::empty();
    let mut named: Vec<FuncId> = Vec::new();
    let mut k: usize = 0;
    while k < sites.len()
        invariant
            k <= sites@.len(),
            sites@ == f.sites(),
            forall|k: int| 0 <= k < sites@.len() ==> f.has_site(#[trigger] sites@[k]),
            t.wf(),
            e.wf(),
            cyclic@.len() == f.blocks@.len(),
            forall|b: int|
                0 <= b < cyclic@.len() ==> (#[trigger] cyclic@[b] == reaches_plus(
                    succ_graph(f),
                    b,
                    b,
                )),
            e@ == own_effects(p, f, t@, k as int),
            forall|c: FuncId| #[trigger] named@.contains(c) == names_statically(f, c, k as int),
        decreases sites@.len() - k,
    {
        let s = sites[k];
        let op = f.op(s);
        let ghost named0 = named@;
        let mut found: Option<FuncId> = None;
        match op {
            Op::Make { kind: MakeKind::Chan, dst, .. } => {
                let l = resolve_loc(f, *dst);
                add_at(&mut e.chan_ops, l, ChanOps::of(ChanOp::Make));
            },
            Op::Send { chan, .. } => {
                let l = resolve_loc(f, *chan);
                add_at(&mut e.chan_ops, l, ChanOps::of(ChanOp::Send));
            },
            Op::Recv { chan, .. } => {
                let l = resolve_loc(f, *chan);
                add_at(&mut e.chan_ops, l, ChanOps::of(ChanOp::Recv));
            },
            Op::CloseChan { chan } => {
                let l = resolve_loc(f, *chan);
                add_at(&mut e.chan_ops, l, ChanOps::of(ChanOp::Close));
            },
            Op::Select { arms, .. } => {
                record_arms(f, &mut e, arms);
            },
            Op::Lock { kind, mu } => {
                let l = resolve_loc(f, *mu);
                add_at(&mut e.lock_ops, l, LockOps::of(lock_op(*kind)));
            },
            Op::Call { callee: Callee::Static(c), args, .. } => {
                join_call(f, &mut e, t, *c, args);
                found = Some(*c);
            },
            Op::Go { callee, args } => {
                let n = if cyclic[s.0] { Spawns::Unbounded } else { Spawns::Bounded };
                e.spawns = e.spawns.larger(n);
                found = record_go_defer_callee(p, f, &mut e, t, callee, args, false);
            },
            Op::Defer { callee, args } => {
                found = record_go_defer_callee(p, f, &mut e, t, callee, args, true);
            },
            _ => {},
        }
        assert(found == static_callee(*op));
        if let Some(c) = found {
            named.push(c);
        }
        proof {
            assert forall|c: FuncId| #[trigger] named@.contains(c) == names_statically(
                f,
                c,
                k as int + 1,
            ) by {
                if names_statically(f, c, k as int) {
                    let i = choose|i: int|
                        0 <= i < k && static_callee(f.op_at(#[trigger] f.sites()[i])) == Some(c);
                    assert(static_callee(f.op_at(f.sites()[i])) == Some(c));
                }
                if named0.contains(c) {
                    let i = choose|i: int| 0 <= i < named0.len() && named0[i] == c;
                    assert(named@[i] == c);
                }
                if found == Some(c) {
                    assert(named@[named0.len() as int] == c);
                    assert(static_callee(f.op_at(f.sites()[k as int])) == Some(c));
                }
                if named@.contains(c) && !named0.contains(c) {
                    let i = choose|i: int| 0 <= i < named@.len() && named@[i] == c;
                    if i < named0.len() {
                        assert(named0[i] == c);
                    }
                }
            }
        }
        k += 1;
    }
    let none: Vec<Loc> = Vec::new();
    assert(locs(none@) =~= Seq::<LocV>::empty());
    let ghost own = e@;
    let n = graph.callee_count(id);
    let mut j: usize = 0;
    while j < n
        invariant
            j <= n,
            n == graph.callees_of(id).len(),
            t.wf(),
            e.wf(),
            locs(none@) == Seq::<LocV>::empty(),
            e@ == add_dispatched(f, t@, own, graph.callees_of(id), j as int),
            forall|c: FuncId| #[trigger]
                named@.contains(c) == names_statically(f, c, f.sites().len() as int),
        decreases n - j,
    {
        let c = graph.callee_at(id, j);
        if !has_func(&named, c) {
            match t.effects(c) {
                Some(ce) => {
                    e.join(&rebase(ce, &none, &none));
                },
                None => {
                    e.join(&rebase(&Effects::top(), &none, &none));
                },
            }
        }
        j += 1;
    }
    e
}

} // verus!
