//! Where values are: the place of a value told from the instruction that defines it.

use vstd::prelude::*;
use crate::effects::{
    def_of, dst_of, last_def, rebased, resolve_from, resolved, LocV, RootV, MAX_LOC_HOPS,
};
use crate::ir::{first_index, Function, Op, ValueId, ValueKind};
use crate::leak::{seen_through, FrameV};

verus! {

/// Whether a value stands for itself: a parameter, a captured variable or a global.
pub open spec fn is_root(f: &Function, v: ValueId) -> bool {
    f.kind_of(v) is Param || f.kind_of(v) is FreeVar || f.kind_of(v) is Global
}

/// Whether `l` is a known place.
pub open spec fn known(l: LocV) -> bool {
    !(l.root is Unknown)
}

/// `l` followed by a field.
pub open spec fn then_field(l: LocV, field: u32) -> LocV {
    LocV { root: l.root, path: l.path.push(field) }
}

/// `path` without its last `n` steps.
spec fn head(path: Seq<u32>, n: nat) -> Seq<u32> {
    path.take(path.len() - n)
}

proof fn lemma_shift(
    f: &Function,
    cur: ValueId,
    path: Seq<u32>,
    hops: nat,
    path2: Seq<u32>,
    hops2: nat,
)
    requires
        hops2 <= hops,
        path2.len() <= path.len(),
    ensures
        known(resolve_from(f, cur, path, hops)) ==> {
            let r = resolve_from(f, cur, path, hops);
            let q = head(r.path, path.len());
            &&& r.path.len() >= path.len()
            &&& r.path == q + path
            &&& resolve_from(f, cur, path2, hops2) == (LocV { root: r.root, path: q + path2 })
        },
    decreases MAX_LOC_HOPS + 1 - hops,
{
    let r = resolve_from(f, cur, path, hops);
    if known(r) {
        if is_root(f, cur) {
            assert(head(r.path, path.len()) =~= Seq::<u32>::empty());
            assert(Seq::<u32>::empty() + path =~= path);
            assert(Seq::<u32>::empty() + path2 =~= path2);
        } else {
            match def_of(f, cur) {
                Some(Op::FieldAddr { dst, base, field }) => {
                    let p1 = seq![field] + path;
                    let p2 = seq![field] + path2;
                    lemma_shift(f, base, p1, hops + 1, p2, hops2 + 1);
                    let q1 = head(r.path, p1.len());
                    assert(head(r.path, path.len()) =~= q1 + seq![field]) by {
                        assert(r.path == q1 + p1);
                    }
                    assert(q1 + p1 =~= (q1 + seq![field]) + path);
                    assert(q1 + p2 =~= (q1 + seq![field]) + path2);
                },
                Some(Op::Load { dst, addr }) => {
                    lemma_shift(f, addr, path, hops + 1, path2, hops2 + 1);
                },
                Some(Op::Assign { dst, src }) => {
                    lemma_shift(f, src, path, hops + 1, path2, hops2 + 1);
                },
                _ => {
                    assert(head(r.path, path.len()) =~= Seq::<u32>::empty());
                    assert(Seq::<u32>::empty() + path =~= path);
                    assert(Seq::<u32>::empty() + path2 =~= path2);
                },
            }
        }
    }
}

proof fn lemma_same(f: &Function, cur: ValueId, hops: nat)
    ensures
        known(resolve_from(f, cur, Seq::empty(), hops)) ==> resolve_from(
            f,
            cur,
            Seq::empty(),
            hops,
        ) == resolved(f, cur),
{
    let r = resolve_from(f, cur, Seq::empty(), hops);
    lemma_shift(f, cur, Seq::empty(), hops, Seq::empty(), 0);
    if known(r) {
        assert(head(r.path, 0) =~= r.path);
        assert(r.path + Seq::<u32>::empty() =~= r.path);
    }
}

/// Where a value that an instruction defines is, if that is known: an allocation or a made
/// channel, map or slice is a place of its own, the address of a field is that field of its
/// base, and what is loaded from a cell or copied is where the cell or the original is.
pub proof fn places_follow_definitions(f: &Function, v: ValueId)
    requires
        !is_root(f, v),
    ensures
        match def_of(f, v) {
            Some(Op::Alloc { .. }) => resolved(f, v) == (LocV {
                root: RootV::Alloc(v.0),
                path: Seq::empty(),
            }),
            Some(Op::Make { .. }) => resolved(f, v) == (LocV {
                root: RootV::Alloc(v.0),
                path: Seq::empty(),
            }),
            Some(Op::FieldAddr { base, field, .. }) => known(resolved(f, v)) ==> resolved(f, v)
                == then_field(resolved(f, base), field),
            Some(Op::Load { addr, .. }) => known(resolved(f, v)) ==> resolved(f, v) == resolved(
                f,
                addr,
            ),
            Some(Op::Assign { src, .. }) => known(resolved(f, v)) ==> resolved(f, v) == resolved(
                f,
                src,
            ),
            _ => !known(resolved(f, v)),
        },
{
    definitions_are_the_last(f, v);
    match def_of(f, v) {
        Some(Op::FieldAddr { dst, base, field }) => {
            assert(seq![field] + Seq::<u32>::empty() =~= seq![field]);
            let r = resolve_from(f, base, seq![field], 1);
            assert(resolved(f, v) == r);
            lemma_shift(f, base, seq![field], 1, Seq::empty(), 0);
            if known(r) {
                let q = head(r.path, 1);
                assert(q + Seq::<u32>::empty() =~= q);
                assert(q + seq![field] =~= q.push(field));
            }
        },
        Some(Op::Load { dst, addr }) => {
            lemma_same(f, addr, 1);
        },
        Some(Op::Assign { dst, src }) => {
            lemma_same(f, src, 1);
        },
        _ => {},
    }
}

/// A parameter is a place of its own, known by its position; so are a captured variable, and
/// a global, known by its name. What is loaded or copied from one is there, and the address
/// of its field is that field of it.
pub proof fn roots_are_places(f: &Function, v: ValueId, i: int, u: ValueId)
    requires
        is_root(f, v),
        f.kind_of(v) is Param ==> 0 <= i < f.params@.len() && f.params@[i] == v && forall|j: int|
            0 <= j < i ==> f.params@[j] != v,
        f.kind_of(v) is FreeVar ==> 0 <= i < f.free_vars@.len() && f.free_vars@[i] == v && forall|
            j: int,
        |
            0 <= j < i ==> f.free_vars@[j] != v,
    ensures
        match f.kind_of(v) {
            ValueKind::Param => resolved(f, v) == (LocV {
                root: RootV::Param(i as u32),
                path: Seq::empty(),
            }),
            ValueKind::FreeVar => resolved(f, v) == (LocV {
                root: RootV::FreeVar(i as u32),
                path: Seq::empty(),
            }),
            ValueKind::Global(name) => resolved(f, v) == (LocV {
                root: RootV::Global(name@),
                path: Seq::empty(),
            }),
            _ => true,
        },
        !is_root(f, u) ==> match def_of(f, u) {
            Some(Op::FieldAddr { base, field, .. }) => base == v ==> resolved(f, u) == then_field(
                resolved(f, v),
                field,
            ),
            Some(Op::Load { addr, .. }) => addr == v ==> resolved(f, u) == resolved(f, v),
            Some(Op::Assign { src, .. }) => src == v ==> resolved(f, u) == resolved(f, v),
            _ => true,
        },
{
    lemma_first(f.params@, v, 0, i);
    lemma_first(f.free_vars@, v, 0, i);
    if !is_root(f, u) {
        if let Some(Op::FieldAddr { dst, base, field }) = def_of(f, u) {
            assert(Seq::<u32>::empty().push(field) =~= seq![field]);
            assert(seq![field] + Seq::<u32>::empty() =~= seq![field]);
        }
    }
    reveal_with_fuel(resolve_from, 2);
}

proof fn lemma_first(s: Seq<ValueId>, x: ValueId, from: int, i: int)
    requires
        0 <= from,
    ensures
        from <= i < s.len() && s[i] == x && (forall|j: int| from <= j < i ==> s[j] != x)
            ==> first_index(s, x, from) == Some(i),
    decreases s.len() - from,
{
    if from < i < s.len() {
        lemma_first(s, x, from + 1, i);
    }
}

proof fn lemma_last(f: &Function, v: ValueId, k: int)
    requires
        0 <= k <= f.sites().len(),
    ensures
        match last_def(f, v, k) {
            Some(s) => exists|i: int|
                0 <= i < k && #[trigger] f.sites()[i] == s && dst_of(f.op_at(s)) == Some(v)
                    && forall|j: int|
                    i < j < k ==> dst_of(f.op_at(#[trigger] f.sites()[j])) != Some(v),
            None => forall|j: int| 0 <= j < k ==> dst_of(f.op_at(#[trigger] f.sites()[j])) != Some(v),
        },
    decreases k,
{
    if k > 0 {
        if dst_of(f.op_at(f.sites()[k - 1])) == Some(v) {
            assert(f.sites()[k - 1] == last_def(f, v, k).unwrap());
        } else {
            lemma_last(f, v, k - 1);
        }
    }
}

/// The definition of a value is the last instruction that defines it.
pub proof fn definitions_are_the_last(f: &Function, v: ValueId)
    ensures
        match def_of(f, v) {
            Some(op) => exists|i: int|
                0 <= i < f.sites().len() && f.op_at(#[trigger] f.sites()[i]) == op && dst_of(op)
                    == Some(v) && forall|j: int|
                    i < j < f.sites().len() ==> dst_of(f.op_at(#[trigger] f.sites()[j])) != Some(v),
            None => forall|j: int|
                0 <= j < f.sites().len() ==> dst_of(f.op_at(#[trigger] f.sites()[j])) != Some(v),
        },
{
    lemma_last(f, v, f.sites().len() as int);
}

/// What a goroutine sees of its spawner: its parameters and captured variables are where they
/// are for any callee, and nothing else is seen.
pub proof fn goroutines_see_what_they_are_given(l: LocV, m: FrameV)
    ensures
        l.root is Param || l.root is FreeVar ==> seen_through(l, m) == rebased(l, m.args, m.fvs),
        !(l.root is Param) && !(l.root is FreeVar) ==> !known(seen_through(l, m)),
{
}

} // verus!
