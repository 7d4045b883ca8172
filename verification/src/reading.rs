//! Models and findings: what a model's lines and definitions bind is read from them, and every
//! obligation that can be violated is reported.

use vstd::prelude::*;
use crate::answers::answer;
use crate::checker::{FindingV, ObligationV, Severity};
use crate::findings::{finding_of, raised_upto};
use crate::fixpoint::AnswersV;
use crate::ir::{opt_pos, FuncId, Program};
use crate::model::{
    arrow_at, defs_into, is_space, line_end, list_defs, sexpr_text_of, trim_from, trim_to, trimmed,
    truths, with_line, with_lines, SExprV,
};
use crate::query::SatResult;

verus! {

// ---- Lines ----

/// Whether `s` is there and has no white space at either end.
pub open spec fn tight(s: Seq<char>) -> bool {
    s.len() > 0 && !is_space(s[0]) && !is_space(s[s.len() - 1])
}

/// Whether an arrow starts at `i`.
pub open spec fn has_arrow(s: Seq<char>, i: int) -> bool {
    0 <= i && i + 1 < s.len() && s[i] == '-' && s[i + 1] == '>'
}

proof fn lemma_arrow(s: Seq<char>, from: int, k: int)
    requires
        0 <= from <= k,
        has_arrow(s, k),
        forall|j: int| from <= j < k ==> !has_arrow(s, j),
    ensures
        arrow_at(s, from) == Some(k),
    decreases k - from,
{
    if from < k {
        assert(!has_arrow(s, from));
        lemma_arrow(s, from + 1, k);
    }
}

/// A text without white space at its ends is left as it is by trimming, and so is one with a
/// blank before or behind it.
pub proof fn trimming_drops_blanks_only(s: Seq<char>)
    requires
        tight(s),
    ensures
        trimmed(s) == s,
        trimmed(seq![' '] + s) == s,
        trimmed(s + seq![' ']) == s,
{
    reveal_with_fuel(trim_from, 3);
    reveal_with_fuel(trim_to, 3);
    assert(trimmed(s) =~= s);
    let a = seq![' '] + s;
    assert(a[0] == ' ' && a[1] == s[0] && a[a.len() - 1] == s[s.len() - 1]);
    assert(trimmed(a) =~= s);
    let b = s + seq![' '];
    assert(b[0] == s[0] && b[b.len() - 1] == ' ' && b[b.len() - 2] == s[s.len() - 1]);
    assert(trimmed(b) =~= s);
}

/// A line `name -> value` binds the name to the value.
pub proof fn lines_bind_names_to_values(
    m: Map<Seq<char>, Seq<char>>,
    name: Seq<char>,
    val: Seq<char>,
)
    requires
        tight(name),
        tight(val),
        forall|j: int| !has_arrow(name, j),
    ensures
        with_line(m, name + seq![' ', '-', '>', ' '] + val) == m.insert(name, val),
{
    let l = name + seq![' ', '-', '>', ' '] + val;
    let k = name.len() as int + 1;
    assert(l[k] == '-' && l[k + 1] == '>');
    assert forall|j: int| 0 <= j < k implies !has_arrow(l, j) by {
        if j + 1 < name.len() {
            assert(!has_arrow(name, j));
            assert(l[j] == name[j] && l[j + 1] == name[j + 1]);
        } else if j < name.len() {
            assert(l[j + 1] == ' ');
        } else {
            assert(l[j] == ' ');
        }
    }
    lemma_arrow(l, 0, k);
    assert(l.take(k) =~= name + seq![' ']);
    assert(l.skip(k + 2) =~= seq![' '] + val);
    trimming_drops_blanks_only(name);
    trimming_drops_blanks_only(val);
}

proof fn lemma_line_end(s: Seq<char>, from: int, e: int)
    requires
        0 <= from <= e < s.len(),
        s[e] == '\n',
        forall|j: int| from <= j < e ==> s[j] != '\n',
    ensures
        line_end(s, from) == e,
    decreases e - from,
{
    if from < e {
        lemma_line_end(s, from + 1, e);
    }
}

proof fn lemma_line_end_shift(s: Seq<char>, k: int, from: int)
    requires
        0 <= k,
        k <= from,
        k <= s.len(),
    ensures
        line_end(s, from) == k + line_end(s.skip(k), from - k),
        from <= line_end(s, from),
    decreases s.len() - from,
{
    let t = s.skip(k);
    if from < s.len() {
        assert(t[from - k] == s[from]);
        if s[from] != '\n' {
            lemma_line_end_shift(s, k, from + 1);
        }
    }
}

proof fn lemma_lines_shift(s: Seq<char>, k: int, from: int, m: Map<Seq<char>, Seq<char>>)
    requires
        0 <= k <= from,
        k <= s.len(),
    ensures
        with_lines(s, from, m) == with_lines(s.skip(k), from - k, m),
    decreases s.len() - from,
{
    let t = s.skip(k);
    if from < s.len() {
        lemma_line_end_shift(s, k, from);
        let e = line_end(s, from);
        if e <= s.len() {
            assert(s.subrange(from, e) =~= t.subrange(from - k, e - k));
        } else {
            lemma_end_bound(s, from);
        }
        if e < s.len() {
            lemma_lines_shift(s, k, e + 1, with_line(m, s.subrange(from, e)));
        }
    }
}

proof fn lemma_end_bound(s: Seq<char>, from: int)
    requires
        0 <= from <= s.len(),
    ensures
        line_end(s, from) <= s.len(),
    decreases s.len() - from,
{
    if from < s.len() && s[from] != '\n' {
        lemma_end_bound(s, from + 1);
    }
}

/// A text is read line by line: what the first line binds, then what the rest binds, which
/// overrides it.
pub proof fn models_are_read_line_by_line(
    l: Seq<char>,
    rest: Seq<char>,
    m: Map<Seq<char>, Seq<char>>,
)
    requires
        forall|j: int| 0 <= j < l.len() ==> l[j] != '\n',
    ensures
        with_lines(l + seq!['\n'] + rest, 0, m) == with_lines(rest, 0, with_line(m, l)),
{
    let s = l + seq!['\n'] + rest;
    let e = l.len() as int;
    assert(s[e] == '\n');
    assert forall|j: int| 0 <= j < e implies s[j] != '\n' by {
        assert(s[j] == l[j]);
    }
    lemma_line_end(s, 0, e);
    assert(s.subrange(0, e) =~= l);
    lemma_lines_shift(s, e + 1, e + 1, with_line(m, l));
    assert(s.skip(e + 1) =~= rest);
}

// ---- Definitions ----

/// A definition `(define-fun name args sort value)` binds the name to the value's text; any
/// other list binds what its items bind, from left to right.
pub proof fn definitions_bind_names_to_values(
    name: Seq<char>,
    args: Seq<SExprV>,
    sort: SExprV,
    val: SExprV,
    other: SExprV,
    m: Map<Seq<char>, Seq<char>>,
)
    ensures
        ({
            let d = SExprV::List(
                seq![
                    SExprV::Atom("define-fun"@),
                    SExprV::Atom(name),
                    SExprV::List(args),
                    sort,
                    val,
                ],
            );
            &&& defs_into(d, m) == m.insert(name, sexpr_text_of(val))
            &&& defs_into(SExprV::List(seq![d, other]), m) == defs_into(
                other,
                m.insert(name, sexpr_text_of(val)),
            )
            &&& defs_into(SExprV::List(seq![other, d]), m) == defs_into(other, m).insert(
                name,
                sexpr_text_of(val),
            )
        }),
{
    let d = SExprV::List(
        seq![
            SExprV::Atom("define-fun"@),
            SExprV::Atom(name),
            SExprV::List(args),
            sort,
            val,
        ],
    );
    reveal_with_fuel(list_defs, 4);
    reveal_with_fuel(defs_into, 3);
    assert(defs_into(d, m) == m.insert(name, sexpr_text_of(val)));
    let v = seq![d, other];
    assert(v[0] == d && v[1] == other);
    let w = seq![other, d];
    assert(w[0] == other && w[1] == d);
    assert(defs_into(SExprV::List(v), m) == list_defs(v, 2, m));
    assert(list_defs(v, 2, m) == defs_into(other, list_defs(v, 1, m)));
    assert(list_defs(v, 1, m) == defs_into(d, m));
    assert(defs_into(SExprV::List(w), m) == list_defs(w, 2, m));
    assert(list_defs(w, 2, m) == defs_into(d, list_defs(w, 1, m)));
    assert(list_defs(w, 1, m) == defs_into(other, m));
}

/// What a model calls true is true and what it calls false is false; nothing else is either.
pub proof fn truths_are_called_true(m: Map<Seq<char>, Seq<char>>, n: Seq<char>)
    ensures
        truths(m).contains_key(n) && truths(m)[n] <==> m.contains_key(n) && m[n] == "true"@,
        truths(m).contains_key(n) && !truths(m)[n] <==> m.contains_key(n) && m[n] == "false"@,
{
    reveal_strlit("true");
    reveal_strlit("false");
    assert("true"@.len() != "false"@.len());
}

// ---- Findings ----

/// Whether `x` reports the obligation `o` as an error of `checker` in `f`.
pub open spec fn reports(
    p: &Program,
    f: FuncId,
    checker: Seq<char>,
    o: ObligationV,
    x: FindingV,
) -> bool {
    &&& x.checker == checker
    &&& x.tag == o.tag
    &&& x.message == o.message
    &&& x.func == p.name_of(f)
    &&& x.pos == opt_pos(o.pos)
    &&& x.severity == Severity::Error
}

proof fn lemma_raised_more(
    p: &Program,
    f: FuncId,
    checker: Seq<char>,
    obs: Seq<ObligationV>,
    m: AnswersV,
    i: int,
    n: nat,
)
    requires
        0 <= i < n <= obs.len(),
        answer(m, obs[i].query).result_of() == SatResult::Sat,
    ensures
        exists|k: int|
            0 <= k < raised_upto(p, f, checker, obs, m, n).len() && reports(
                p,
                f,
                checker,
                obs[i],
                #[trigger] raised_upto(p, f, checker, obs, m, n)[k],
            ),
    decreases n,
{
    let before = raised_upto(p, f, checker, obs, m, (n - 1) as nat);
    let after = raised_upto(p, f, checker, obs, m, n);
    if i < n - 1 {
        lemma_raised_more(p, f, checker, obs, m, i, (n - 1) as nat);
        let k = choose|k: int|
            0 <= k < before.len() && reports(p, f, checker, obs[i], #[trigger] before[k]);
        assert(after[k] == before[k]);
    } else {
        let x = finding_of(p, f, checker, obs[i], answer(m, obs[i].query).model_of());
        assert(after[before.len() as int] == x);
    }
}

/// Every obligation whose query is answered as satisfiable is reported.
pub proof fn satisfiable_obligations_are_reported(
    p: &Program,
    f: FuncId,
    checker: Seq<char>,
    obs: Seq<ObligationV>,
    m: AnswersV,
    i: int,
)
    requires
        0 <= i < obs.len(),
        answer(m, obs[i].query).result_of() == SatResult::Sat,
    ensures
        exists|k: int|
            0 <= k < raised_upto(p, f, checker, obs, m, obs.len()).len() && reports(
                p,
                f,
                checker,
                obs[i],
                #[trigger] raised_upto(p, f, checker, obs, m, obs.len())[k],
            ),
{
    lemma_raised_more(p, f, checker, obs, m, i, obs.len());
}

} // verus!
