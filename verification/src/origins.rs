//! Where values come from: which are matters of the parameters, and which are results of calls.

use vstd::prelude::*;
use crate::buffers::{assigns, copies_are_their_originals};
use crate::encode::value_name_of;
use crate::executions::among;
use crate::ir::{first_index, Callee, FuncId, Function, Op, ValueId};
use crate::nil::judged_callee;
use crate::shared::{call_defining, call_result, over_params, result_defining};
use crate::summary::{iface_name, IfaceVar, Provenance, SummaryV, TableV};
use crate::term::{Sort, TermV};
use crate::text::{dec, parse_of_dec};

verus! {

proof fn lemma_index(s: Seq<ValueId>, x: ValueId, from: int)
    requires
        0 <= from,
    ensures
        match first_index(s, x, from) {
            Some(i) => from <= i < s.len() && s[i] == x,
            None => forall|j: int| from <= j < s.len() ==> s[j] != x,
        },
    decreases s.len() - from,
{
    if from < s.len() && s[from] != x {
        lemma_index(s, x, from + 1);
    }
}

/// A value is a matter of the parameters exactly if it is one.
pub proof fn only_parameters_are_matters_of_parameters(f: &Function, v: ValueId, s: Sort)
    requires
        f.params@.len() <= u32::MAX,
    ensures
        over_params(TermV::Var(value_name_of(f, v), s)) <==> among(f.params@, v),
        over_params(TermV::PtrIsNil(Box::new(TermV::Var(value_name_of(f, v), s)))) <==> among(
            f.params@,
            v,
        ),
{
    let n = value_name_of(f, v);
    let t = TermV::Var(n, s);
    let vars = t.vars();
    assert(vars == Map::<Seq<char>, Sort>::empty().insert(n, s));
    assert(TermV::PtrIsNil(Box::new(t)).vars() == vars);
    assert(vars.contains_key(n));
    lemma_index(f.params@, v, 0);
    match first_index(f.params@, v, 0) {
        Some(i) => {
            parse_of_dec(i as u32);
            assert(n.skip(1) =~= dec(i as nat));
            assert(n[0] == 'p');
            assert(among(f.params@, v));
        },
        None => {
            reveal_strlit("v");
            assert(n[0] == 'v');
        },
    }
}

/// Whether an instruction defines `v` as the result of a call by name, or takes it out of a
/// tuple.
pub open spec fn yields_value(op: Op, v: ValueId) -> bool {
    match op {
        Op::Call { dst, callee, .. } => dst == Some(v) && callee is Static,
        Op::Extract { dst, .. } => dst == v,
        _ => false,
    }
}

proof fn lemma_first_result(f: &Function, v: ValueId, from: int, k: int)
    requires
        0 <= from <= k < f.sites().len(),
        yields_value(f.op_at(f.sites()[k]), v),
        forall|j: int| from <= j < k ==> !yields_value(f.op_at(#[trigger] f.sites()[j]), v),
    ensures
        result_defining(f, v, from) == result_defining(f, v, k),
    decreases k - from,
{
    if from < k {
        assert(!yields_value(f.op_at(f.sites()[from]), v));
        lemma_first_result(f, v, from + 1, k);
    }
}

/// Whether an instruction defines `v` as the result of a call by name.
pub open spec fn calls_into(op: Op, v: ValueId) -> bool {
    op matches Op::Call { dst, callee, .. } && dst == Some(v) && callee is Static
}

proof fn lemma_first_call(f: &Function, v: ValueId, from: int, k: int)
    requires
        0 <= from <= k < f.sites().len(),
        calls_into(f.op_at(f.sites()[k]), v),
        forall|j: int| from <= j < k ==> !calls_into(f.op_at(#[trigger] f.sites()[j]), v),
    ensures
        f.op_at(f.sites()[k]) matches Op::Call { callee: Callee::Static(c), .. } && call_defining(
            f,
            v,
            from,
        ) == Some(c),
    decreases k - from,
{
    if from < k {
        assert(!calls_into(f.op_at(f.sites()[from]), v));
        lemma_first_call(f, v, from + 1, k);
    }
}

/// A value that a call by name defines is the first result of its callee, and what is taken
/// out of the tuple that a call defines is the result with that index.
pub proof fn results_come_from_their_calls(f: &Function, v: ValueId, k: int, j: int)
    requires
        0 <= k < f.sites().len(),
        yields_value(f.op_at(f.sites()[k]), v),
        forall|i: int| 0 <= i < k ==> !yields_value(f.op_at(#[trigger] f.sites()[i]), v),
        forall|i: int|
            0 <= i < f.sites().len() ==> !assigns(f.op_at(#[trigger] f.sites()[i]), v),
    ensures
        match f.op_at(f.sites()[k]) {
            Op::Call { callee: Callee::Static(c), .. } => call_result(f, v) == Some((c, 0u32)),
            Op::Extract { tuple, index, .. } => 0 <= j < f.sites().len() && calls_into(
                f.op_at(f.sites()[j]),
                tuple,
            ) && (forall|i: int|
                0 <= i < j ==> !calls_into(f.op_at(#[trigger] f.sites()[i]), tuple)) && (forall|
                i: int,
            |
                0 <= i < f.sites().len() ==> !assigns(f.op_at(#[trigger] f.sites()[i]), tuple)) ==> (
            f.op_at(f.sites()[j]) matches Op::Call { callee: Callee::Static(c), .. } && call_result(
                f,
                v,
            ) == Some((c, index))),
            _ => true,
        },
{
    copies_are_their_originals(f, v, v, 0);
    lemma_first_result(f, v, 0, k);
    if let Op::Extract { tuple, index, .. } = f.op_at(f.sites()[k]) {
        if 0 <= j < f.sites().len() && calls_into(f.op_at(f.sites()[j]), tuple) && (forall|i: int|
            0 <= i < j ==> !calls_into(f.op_at(#[trigger] f.sites()[i]), tuple)) && (forall|i: int|
            0 <= i < f.sites().len() ==> !assigns(f.op_at(#[trigger] f.sites()[i]), tuple)) {
            copies_are_their_originals(f, tuple, tuple, 0);
            lemma_first_call(f, tuple, 0, j);
        }
    }
}

/// Whether a summary says something of whether result `i` is nil.
pub open spec fn speaks_of(s: SummaryV, i: u32) -> bool {
    exists|k: int|
        0 <= k < s.ensures_.len() && (#[trigger] s.ensures_[k]).tag == "nil-deref"@
            && s.ensures_[k].term.vars().contains_key(iface_name(IfaceVar::Result(i)))
}

/// A dereference of a call's result is judged exactly if the callee's summary is inferred and
/// says something of that result.
pub proof fn results_are_judged_by_what_is_said_of_them(
    f: &Function,
    t: TableV,
    v: ValueId,
    c: FuncId,
    i: u32,
)
    requires
        call_result(f, v) == Some((c, i)),
    ensures
        judged_callee(f, t, v) == (if t.summary(c).provenance == Provenance::Inferred && speaks_of(
            t.summary(c),
            i,
        ) {
            Some(c)
        } else {
            None
        }),
{
}

} // verus!
