//! Reading a solver's model, for display: which blocks a violating execution passes, and
//! what the parameters are.
//!
//! Verdicts never depend on anything here. Text of an unknown shape gives fewer entries or
//! none.

use vstd::prelude::*;
use crate::encode::guard_name_of;
use crate::graph::adj;
use crate::ir::Function;
use crate::order::SortedMap;
use crate::text::{chars_of, numbered, text_of};

verus! {

/// Whether `c` is white space.
pub open spec fn is_space(c: char) -> bool {
    ||| '\u{9}' <= c <= '\u{d}'
    ||| c == ' '
    ||| c == '\u{85}'
    ||| c == '\u{a0}'
    ||| c == '\u{1680}'
    ||| '\u{2000}' <= c <= '\u{200a}'
    ||| '\u{2028}' <= c <= '\u{2029}'
    ||| c == '\u{202f}'
    ||| c == '\u{205f}'
    ||| c == '\u{3000}'
}

fn space(c: char) -> (r: bool)
    ensures
        r == is_space(c),
{
    ('\u{9}' <= c && c <= '\u{d}') || c == ' ' || c == '\u{85}' || c == '\u{a0}' || c == '\u{1680}' || (
    '\u{2000}' <= c && c <= '\u{200a}') || ('\u{2028}' <= c && c <= '\u{2029}') || c == '\u{202f}' || c
        == '\u{205f}' || c == '\u{3000}'
}

/// Where the text `from..to` of `s` starts once leading white space is dropped.
pub open spec fn trim_from(s: Seq<char>, from: int, to: int) -> int
    decreases to - from,
{
    if from < to && is_space(s[from]) {
        trim_from(s, from + 1, to)
    } else {
        from
    }
}

/// Where the text `from..to` of `s` ends once trailing white space is dropped.
pub open spec fn trim_to(s: Seq<char>, from: int, to: int) -> int
    decreases to - from,
{
    if from < to && is_space(s[to - 1]) {
        trim_to(s, from, to - 1)
    } else {
        to
    }
}

/// `s` without leading and trailing white space.
pub open spec fn trimmed(s: Seq<char>) -> Seq<char> {
    let a = trim_from(s, 0, s.len() as int);
    let b = trim_to(s, a, s.len() as int);
    s.subrange(a, b)
}

/// The end of the line that starts at `from`.
pub open spec fn line_end(s: Seq<char>, from: int) -> int
    decreases s.len() - from,
{
    if from >= s.len() || s[from] == '\n' {
        from
    } else {
        line_end(s, from + 1)
    }
}

/// The place of the first arrow `->` at or after `from`.
pub open spec fn arrow_at(s: Seq<char>, from: int) -> Option<int>
    decreases s.len() - from,
{
    if from + 1 >= s.len() {
        None
    } else if s[from] == '-' && s[from + 1] == '>' {
        Some(from)
    } else {
        arrow_at(s, from + 1)
    }
}

/// `m` with what the line `l` binds: `name -> value` with both sides there.
pub open spec fn with_line(m: Map<Seq<char>, Seq<char>>, l: Seq<char>) -> Map<Seq<char>, Seq<char>> {
    match arrow_at(l, 0) {
        Some(k) => {
            let name = trimmed(l.take(k));
            let value = trimmed(l.skip(k + 2));
            if name.len() == 0 || value.len() == 0 { m } else { m.insert(name, value) }
        },
        None => m,
    }
}

/// `m` with what the lines from `from` on bind; a later line overrides an earlier one.
pub open spec fn with_lines(s: Seq<char>, from: int, m: Map<Seq<char>, Seq<char>>) -> Map<Seq<char>, Seq<char>>
    decreases s.len() - from,
{
    if from < 0 || from >= s.len() {
        m
    } else {
        let e = line_end(s, from);
        let next = with_line(m, s.subrange(from, e));
        if from <= e < s.len() {
            with_lines(s, e + 1, next)
        } else {
            next
        }
    }
}

fn trim_range(cs: &Vec<char>, from: usize, to: usize) -> (r: String)
    requires
        from <= to <= cs@.len(),
    ensures
        r@ == trimmed(cs@.subrange(from as int, to as int)),
{
    let ghost t = cs@.subrange(from as int, to as int);
    let mut a: usize = from;
    while a < to && space(cs[a])
        invariant
            from <= a <= to <= cs@.len(),
            t == cs@.subrange(from as int, to as int),
            trim_from(t, 0, t.len() as int) == trim_from(t, a - from, t.len() as int),
        decreases to - a,
    {
        a += 1;
    }
    let ghost a0 = trim_from(t, 0, t.len() as int);
    assert(a0 == a - from);
    let mut b: usize = to;
    while a < b && space(cs[b - 1])
        invariant
            from <= a <= b <= to <= cs@.len(),
            t == cs@.subrange(from as int, to as int),
            a0 == a - from,
            trim_to(t, a0, t.len() as int) == trim_to(t, a0, b - from),
        decreases b - a,
    {
        b -= 1;
    }
    assert(cs@.subrange(a as int, b as int) =~= t.subrange(a - from, b - from));
    text_of(cs, a, b)
}

fn find_arrow(cs: &Vec<char>, from: usize, to: usize) -> (r: Option<usize>)
    requires
        from <= to <= cs@.len(),
    ensures
        match r {
            Some(k) => arrow_at(cs@.subrange(from as int, to as int), 0) == Some(k - from) && from <= k
                && k + 2 <= to,
            None => arrow_at(cs@.subrange(from as int, to as int), 0) is None,
        },
{
    let ghost t = cs@.subrange(from as int, to as int);
    let mut k: usize = from;
    while k < to && to - k >= 2
        invariant
            from <= k <= to <= cs@.len(),
            t == cs@.subrange(from as int, to as int),
            arrow_at(t, 0) == arrow_at(t, k - from),
        decreases to - k,
    {
        if cs[k] == '-' && cs[k + 1] == '>' {
            return Some(k);
        }
        k += 1;
    }
    None
}

fn add_line(cs: &Vec<char>, from: usize, to: usize, m: &mut SortedMap<String, String>)
    requires
        from <= to <= cs@.len(),
        old(m).wf(),
    ensures
        final(m).wf(),
        final(m)@ == with_line(old(m)@, cs@.subrange(from as int, to as int)),
{
    let ghost l = cs@.subrange(from as int, to as int);
    match find_arrow(cs, from, to) {
        Some(k) => {
            let name = trim_range(cs, from, k);
            let value = trim_range(cs, k + 2, to);
            assert(l.take(k - from) =~= cs@.subrange(from as int, k as int));
            assert(l.skip(k - from + 2) =~= cs@.subrange(k + 2, to as int));
            let nc = chars_of(name.as_str());
            let vc = chars_of(value.as_str());
            if nc.len() > 0 && vc.len() > 0 {
                m.insert(name, value);
            }
        },
        None => {},
    }
}

/// What the lines `name -> value` bind.
fn arrow_entries(cs: &Vec<char>) -> (r: SortedMap<String, String>)
    ensures
        r.wf(),
        r@ == with_lines(cs@, 0, Map::empty()),
{
    let mut m: SortedMap<String, String> = SortedMap::new();
    let mut at: usize = 0;
    while at < cs.len()
        invariant
            at <= cs@.len(),
            m.wf(),
            with_lines(cs@, 0, Map::empty()) == with_lines(cs@, at as int, m@),
        decreases cs@.len() - at,
    {
        let mut e: usize = at;
        while e < cs.len() && cs[e] != '\n'
            invariant
                at <= e <= cs@.len(),
                line_end(cs@, at as int) == line_end(cs@, e as int),
            decreases cs@.len() - e,
        {
            e += 1;
        }
        assert(line_end(cs@, at as int) == e);
        add_line(cs, at, e, &mut m);
        if e == cs.len() {
            return m;
        }
        at = e + 1;
    }
    m
}

// ---- S-expressions ----

/// An s-expression: an atom is a run of characters other than white space and brackets.
#[derive(Debug, PartialEq, Eq)]
pub enum SExpr {
    Atom(String),
    List(Vec<SExpr>),
}

/// The model of an [`SExpr`].
#[verifier::ext_equal]
pub enum SExprV {
    Atom(Seq<char>),
    List(Seq<SExprV>),
}

impl SExpr {
    /// The model of `self`.
    pub open spec fn model(self) -> SExprV
        decreases self,
    {
        match self {
            SExpr::Atom(s) => SExprV::Atom(s@),
            SExpr::List(v) => SExprV::List(
                Seq::new(
                    v@.len(),
                    |i: int| if 0 <= i < v@.len() { v@[i].model() } else { arbitrary() },
                ),
            ),
        }
    }
}

impl View for SExpr {
    type V = SExprV;

    open spec fn view(&self) -> SExprV {
        self.model()
    }
}

/// The models of a list.
pub open spec fn sexprs(v: Seq<SExpr>) -> Seq<SExprV> {
    Seq::new(v.len(), |i: int| v[i]@)
}

proof fn lemma_list_view(v: Vec<SExpr>)
    ensures
        SExpr::List(v)@ == SExprV::List(sexprs(v@)),
{
    assert(SExpr::List(v)@->List_0 =~= sexprs(v@));
}

/// Whether `c` may stand in an atom.
pub open spec fn atom_char(c: char) -> bool {
    !is_space(c) && c != '(' && c != ')'
}

/// The end of the atom that goes on at `i`.
pub open spec fn atom_end(s: Seq<char>, i: int) -> int
    decreases s.len() - i,
{
    if 0 <= i < s.len() && atom_char(s[i]) {
        atom_end(s, i + 1)
    } else {
        i
    }
}

/// The s-expression at `i`, with the place behind it.
pub open spec fn sexpr_at(s: Seq<char>, i: int) -> Option<(SExprV, int)>
    decreases s.len() - i, 0nat,
{
    if i < 0 || i >= s.len() || s[i] == ')' {
        None
    } else if is_space(s[i]) {
        sexpr_at(s, i + 1)
    } else if s[i] == '(' {
        match items_at(s, i + 1, Seq::empty()) {
            Some((v, k)) => Some((SExprV::List(v), k)),
            None => None,
        }
    } else {
        Some((SExprV::Atom(s.subrange(i, atom_end(s, i))), atom_end(s, i)))
    }
}

/// The items from `i` up to the closing bracket, after `acc`, with the place behind it.
pub open spec fn items_at(s: Seq<char>, i: int, acc: Seq<SExprV>) -> Option<(Seq<SExprV>, int)>
    decreases s.len() - i, 1nat,
{
    if i < 0 || i >= s.len() {
        None
    } else if is_space(s[i]) {
        items_at(s, i + 1, acc)
    } else if s[i] == ')' {
        Some((acc, i + 1))
    } else {
        match sexpr_at(s, i) {
            Some((e, k)) => if i < k <= s.len() { items_at(s, k, acc.push(e)) } else { None },
            None => None,
        }
    }
}

fn parse_sexpr(cs: &Vec<char>, from: usize) -> (r: Option<(SExpr, usize)>)
    requires
        from <= cs@.len(),
    ensures
        match r {
            Some((e, k)) => sexpr_at(cs@, from as int) == Some((e@, k as int)) && from < k <= cs@.len(),
            None => sexpr_at(cs@, from as int) is None,
        },
    decreases cs@.len() - from, 0nat,
{
    let mut i: usize = from;
    while i < cs.len() && space(cs[i])
        invariant
            from <= i <= cs@.len(),
            sexpr_at(cs@, from as int) == sexpr_at(cs@, i as int),
        decreases cs@.len() - i,
    {
        i += 1;
    }
    if i >= cs.len() || cs[i] == ')' {
        return None;
    }
    if cs[i] == '(' {
        return match parse_items(cs, i + 1) {
            Some((v, k)) => {
                proof {
                    lemma_list_view(v);
                }
                Some((SExpr::List(v), k))
            },
            None => None,
        };
    }
    let mut e: usize = i;
    while e < cs.len() && !space(cs[e]) && cs[e] != '(' && cs[e] != ')'
        invariant
            i <= e <= cs@.len(),
            i < cs@.len(),
            atom_char(cs@[i as int]),
            atom_end(cs@, i as int) == atom_end(cs@, e as int),
        decreases cs@.len() - e,
    {
        e += 1;
    }
    assert(atom_end(cs@, i as int) == e);
    assert(e > i);
    Some((SExpr::Atom(text_of(cs, i, e)), e))
}

fn parse_items(cs: &Vec<char>, from: usize) -> (r: Option<(Vec<SExpr>, usize)>)
    requires
        from <= cs@.len(),
    ensures
        match r {
            Some((v, k)) => items_at(cs@, from as int, Seq::empty()) == Some((sexprs(v@), k as int))
                && from < k <= cs@.len(),
            None => items_at(cs@, from as int, Seq::empty()) is None,
        },
    decreases cs@.len() - from, 1nat,
{
    let mut out: Vec<SExpr> = Vec::new();
    let mut i: usize = from;
    assert(sexprs(out@) =~= Seq::<SExprV>::empty());
    while i < cs.len()
        invariant
            from <= i <= cs@.len(),
            items_at(cs@, from as int, Seq::empty()) == items_at(cs@, i as int, sexprs(out@)),
        decreases cs@.len() - i,
    {
        if space(cs[i]) {
            i += 1;
        } else if cs[i] == ')' {
            return Some((out, i + 1));
        } else {
            match parse_sexpr(cs, i) {
                Some((e, k)) => {
                    let ghost before = out@;
                    let ghost ev = e@;
                    out.push(e);
                    assert(sexprs(out@) =~= sexprs(before).push(ev));
                    i = k;
                },
                None => {
                    return None;
                },
            }
        }
    }
    None
}

/// The text of an s-expression: items in brackets, one blank between them.
pub open spec fn sexpr_text_of(e: SExprV) -> Seq<char>
    decreases e, 0nat,
{
    match e {
        SExprV::Atom(s) => s,
        SExprV::List(v) => "("@ + items_text(v, v.len()) + ")"@,
    }
}

/// The text of the first `n` items.
pub open spec fn items_text(v: Seq<SExprV>, n: nat) -> Seq<char>
    decreases v, n,
{
    if n == 0 || n > v.len() {
        Seq::empty()
    } else if n == 1 {
        sexpr_text_of(v[0])
    } else {
        items_text(v, (n - 1) as nat) + " "@ + sexpr_text_of(v[n - 1])
    }
}

fn sexpr_text(e: &SExpr) -> (r: String)
    ensures
        r@ == sexpr_text_of(e@),
    decreases e,
{
    match e {
        SExpr::Atom(s) => s.clone(),
        SExpr::List(v) => {
            assert(decreases_to!(e => v@));
            proof {
                lemma_list_view(*v);
            }
            let mut out = "(".to_string();
            let ghost open = out@;
            assert(open + items_text(sexprs(v@), 0) =~= open);
            let mut i: usize = 0;
            while i < v.len()
                invariant
                    i <= v@.len(),
                    decreases_to!(e => v@),
                    out@ == open + items_text(sexprs(v@), i as nat),
                decreases v@.len() - i,
            {
                let ghost before = out@;
                if i > 0 {
                    out.append(" ");
                }
                assert(decreases_to!(v@ => v@[i as int]));
                let t = sexpr_text(&v[i]);
                out.append(t.as_str());
                assert(sexprs(v@)[i as int] == v@[i as int]@);
                assert(out@ =~= open + items_text(sexprs(v@), (i + 1) as nat));
                i += 1;
            }
            out.append(")");
            out
        },
    }
}

/// Whether `v` is `(define-fun name (args) sort body)`.
pub open spec fn is_define(v: Seq<SExprV>) -> bool {
    v.len() == 5 && v[0] == SExprV::Atom("define-fun"@) && v[1] is Atom && v[2] is List
}

/// `m` with the definitions in `e`, from left to right. What a definition holds is not
/// searched.
pub open spec fn defs_into(e: SExprV, m: Map<Seq<char>, Seq<char>>) -> Map<Seq<char>, Seq<char>>
    decreases e, 0nat,
{
    match e {
        SExprV::Atom(_) => m,
        SExprV::List(v) => if is_define(v) {
            m.insert(v[1]->Atom_0, sexpr_text_of(v[4]))
        } else {
            list_defs(v, v.len(), m)
        },
    }
}

/// `m` with the definitions in the first `n` items.
pub open spec fn list_defs(v: Seq<SExprV>, n: nat, m: Map<Seq<char>, Seq<char>>) -> Map<
    Seq<char>,
    Seq<char>,
>
    decreases v, n,
{
    if n == 0 || n > v.len() {
        m
    } else {
        defs_into(v[n - 1], list_defs(v, (n - 1) as nat, m))
    }
}

fn same_atom(e: &SExpr, text: &str) -> (r: bool)
    ensures
        r == (e@ == SExprV::Atom(text@)),
{
    match e {
        SExpr::Atom(s) => crate::ir::same_text(s.as_str(), text),
        SExpr::List(_) => false,
    }
}

fn collect_define_funs(e: &SExpr, m: &mut SortedMap<String, String>)
    requires
        old(m).wf(),
    ensures
        final(m).wf(),
        final(m)@ == defs_into(e@, old(m)@),
    decreases e,
{
    match e {
        SExpr::Atom(_) => {},
        SExpr::List(v) => {
            assert(decreases_to!(e => v@));
            proof {
                lemma_list_view(*v);
            }
            let ghost vv = sexprs(v@);
            assert(vv.len() == v@.len());
            assert(forall|i: int| 0 <= i < v@.len() ==> #[trigger] vv[i] == v@[i]@);
            if v.len() == 5 && same_atom(&v[0], "define-fun") {
                if let (SExpr::Atom(name), SExpr::List(_)) = (&v[1], &v[2]) {
                    assert(vv[1] == SExprV::Atom(name@));
                    assert(vv[2] is List);
                    m.insert(name.clone(), sexpr_text(&v[4]));
                    return;
                }
            }
            assert(!is_define(vv)) by {
                if vv.len() == 5 {
                    assert(vv[1] == v@[1]@);
                    assert(vv[2] == v@[2]@);
                }
            }
            let mut i: usize = 0;
            while i < v.len()
                invariant
                    i <= v@.len(),
                    decreases_to!(e => v@),
                    vv == sexprs(v@),
                    m.wf(),
                    m@ == list_defs(vv, i as nat, old(m)@),
                decreases v@.len() - i,
            {
                assert(decreases_to!(v@ => v@[i as int]));
                collect_define_funs(&v[i], m);
                assert(vv[i as int] == v@[i as int]@);
                i += 1;
            }
        },
    }
}

/// What a model binds: by arrow lines if there are any, else by the definitions in the
/// s-expression that the text starts with.
pub open spec fn model_map(s: Seq<char>) -> Map<Seq<char>, Seq<char>> {
    let arrows = with_lines(s, 0, Map::empty());
    if arrows != Map::<Seq<char>, Seq<char>>::empty() {
        arrows
    } else {
        match sexpr_at(s, 0) {
            Some((e, k)) => defs_into(e, Map::empty()),
            None => Map::empty(),
        }
    }
}

/// What the model binds each name to, as text.
pub fn model_bindings(model_text: &str) -> (r: SortedMap<String, String>)
    ensures
        r.wf(),
        r@ == model_map(model_text@),
{
    let cs = chars_of(model_text);
    let arrows = arrow_entries(&cs);
    proof {
        arrows.lemma_items();
    }
    if arrows.len() > 0 {
        assert(arrows@.contains_pair(arrows.items()[0].0, arrows.items()[0].1));
        return arrows;
    }
    assert(arrows@ =~= Map::<Seq<char>, Seq<char>>::empty());
    let mut m: SortedMap<String, String> = SortedMap::new();
    if let Some((e, _)) = parse_sexpr(&cs, 0) {
        collect_define_funs(&e, &mut m);
    }
    m
}

/// Those names that a model makes true or false.
pub open spec fn truths(m: Map<Seq<char>, Seq<char>>) -> Map<Seq<char>, bool> {
    Map::new(
        |n: Seq<char>| m.contains_key(n) && (m[n] == "true"@ || m[n] == "false"@),
        |n: Seq<char>| m[n] == "true"@,
    )
}

/// The names that the model makes true or false.
pub fn guard_values(model_text: &str) -> (r: SortedMap<String, bool>)
    ensures
        r.wf(),
        r@ == truths(model_map(model_text@)),
{
    let all = model_bindings(model_text);
    let ghost items = all.items();
    let mut out: SortedMap<String, bool> = SortedMap::new();
    proof {
        all.lemma_items();
        reveal_strlit("true");
        reveal_strlit("false");
    }
    assert("true"@.len() != "false"@.len());
    let mut i: usize = 0;
    while i < all.len()
        invariant
            i <= items.len(),
            items == all.items(),
            all.wf(),
            all@ == model_map(model_text@),
            out.wf(),
            "true"@.len() != "false"@.len(),
            forall|j: int|
                0 <= j < items.len() ==> all@.contains_pair((#[trigger] items[j]).0, items[j].1),
            forall|n: Seq<char>| #[trigger]
                out@.contains_key(n) ==> truths(all@).contains_key(n) && out@[n] == truths(all@)[n],
            forall|j: int|
                0 <= j < i && truths(all@).contains_key((#[trigger] items[j]).0)
                    ==> out@.contains_key(items[j].0),
        decreases items.len() - i,
    {
        let v = all.value_at(i);
        if crate::ir::same_text(v.as_str(), "true") {
            out.insert(all.key_at(i).clone(), true);
        } else if crate::ir::same_text(v.as_str(), "false") {
            out.insert(all.key_at(i).clone(), false);
        }
        i += 1;
    }
    proof {
        let t = truths(all@);
        assert forall|n: Seq<char>| #[trigger] t.contains_key(n) implies out@.contains_key(n) by {
            let j = choose|j: int| 0 <= j < items.len() && #[trigger] items[j] == (n, all@[n]);
            assert(t.contains_key(items[j].0));
        }
        assert(out@.dom() =~= t.dom());
        assert(out@ =~= t);
    }
    out
}

// ---- Paths ----

/// Whether the guard of block `b` is true.
pub open spec fn guard_true(guards: Map<Seq<char>, bool>, b: int) -> bool {
    guards.contains_key(guard_name_of(b)) && guards[guard_name_of(b)]
}

/// The first of `succs` at or after `from` whose guard is true.
pub open spec fn first_true(guards: Map<Seq<char>, bool>, succs: Seq<u32>, from: int) -> Option<u32>
    decreases succs.len() - from,
{
    if from < 0 || from >= succs.len() {
        None
    } else if guard_true(guards, succs[from] as int) {
        Some(succs[from])
    } else {
        first_true(guards, succs, from + 1)
    }
}

/// The step from block `cur` in a function of `n` blocks, when `len` blocks are behind.
pub open spec fn path_step(
    dag: Seq<Seq<u32>>,
    guards: Map<Seq<char>, bool>,
    n: nat,
    cur: int,
    len: int,
) -> Option<u32> {
    if 0 <= cur < dag.len() {
        match first_true(guards, dag[cur], 0) {
            Some(b) => if b < n && len <= n { Some(b) } else { None },
            None => None,
        }
    } else {
        None
    }
}

/// The blocks after `cur`.
pub open spec fn path_from(
    dag: Seq<Seq<u32>>,
    guards: Map<Seq<char>, bool>,
    n: nat,
    cur: int,
    len: int,
) -> Seq<u32>
    decreases n + 1 - len,
{
    if len > n {
        Seq::empty()
    } else {
        match path_step(dag, guards, n, cur, len) {
            Some(b) => seq![b] + path_from(dag, guards, n, b as int, len + 1),
            None => Seq::empty(),
        }
    }
}

/// The path of a violating execution: from the entry block, each time on to the first
/// successor whose guard is true.
pub open spec fn path_of(n: nat, dag: Seq<Seq<u32>>, guards: Map<Seq<char>, bool>) -> Seq<u32> {
    if n > 0 && guard_true(guards, 0) {
        seq![0u32] + path_from(dag, guards, n, 0, 1)
    } else {
        Seq::empty()
    }
}

fn block_guard(guards: &SortedMap<String, bool>, b: u32) -> (r: bool)
    requires
        guards.wf(),
    ensures
        r == guard_true(guards@, b as int),
{
    let name = numbered("g", b as u128);
    match guards.get(&name) {
        Some(v) => *v,
        None => false,
    }
}

fn next_block(guards: &SortedMap<String, bool>, succs: &Vec<u32>) -> (r: Option<u32>)
    requires
        guards.wf(),
    ensures
        r == first_true(guards@, succs@, 0),
{
    let mut i: usize = 0;
    while i < succs.len()
        invariant
            i <= succs@.len(),
            guards.wf(),
            first_true(guards@, succs@, 0) == first_true(guards@, succs@, i as int),
        decreases succs@.len() - i,
    {
        if block_guard(guards, succs[i]) {
            return Some(succs[i]);
        }
        i += 1;
    }
    None
}

/// The path of a violating execution, as the model's guards show it; empty where the entry
/// block's guard is not true.
pub fn violating_path(func: &Function, dag_succs: &Vec<Vec<u32>>, guards: &SortedMap<String, bool>) -> (r: Vec<
    u32,
>)
    requires
        guards.wf(),
    ensures
        r@ == path_of(func.blocks@.len(), adj(dag_succs@), guards@),
{
    let n = func.blocks.len();
    let mut path: Vec<u32> = Vec::new();
    if n == 0 || !block_guard(guards, 0) {
        return path;
    }
    let ghost dag = adj(dag_succs@);
    path.push(0);
    let mut cur: usize = 0;
    assert(path@ =~= seq![0u32]);
    while cur < dag_succs.len()
        invariant_except_break
            n == func.blocks@.len(),
            guards.wf(),
            dag == adj(dag_succs@),
            1 <= path@.len() <= n + 1,
            path@ + path_from(dag, guards@, n as nat, cur as int, path@.len() as int) == path_of(
                n as nat,
                dag,
                guards@,
            ),
        ensures
            path@ == path_of(n as nat, dag, guards@),
        decreases n + 1 - path@.len(),
    {
        assert(dag[cur as int] == dag_succs@[cur as int]@);
        let ghost len = path@.len() as int;
        let ghost rest = path_from(dag, guards@, n as nat, cur as int, len);
        match next_block(guards, &dag_succs[cur]) {
            Some(b) => {
                if (b as usize) >= n || path.len() > n {
                    assert(rest =~= Seq::<u32>::empty());
                    assert(path@ + rest =~= path@);
                    break;
                }
                let ghost before = path@;
                path.push(b);
                assert(before + rest =~= path@ + path_from(dag, guards@, n as nat, b as int, len + 1));
                cur = b as usize;
            },
            None => {
                assert(path@ + rest =~= path@);
                break;
            },
        }
    }
    path
}

proof fn lemma_path_from(dag: Seq<Seq<u32>>, guards: Map<Seq<char>, bool>, n: nat, cur: u32, len: int)
    ensures
        ({
            let r = path_from(dag, guards, n, cur as int, len);
            let full = seq![cur] + r;
            &&& r.len() <= n + 1 - len || len > n + 1
            &&& forall|i: int|
                0 <= i < r.len() ==> (#[trigger] r[i]) < n && guard_true(guards, r[i] as int)
            &&& forall|i: int|
                0 <= i < r.len() ==> (#[trigger] full[i]) < dag.len() && dag[full[i] as int].contains(
                    full[i + 1],
                )
        }),
    decreases n + 1 - len,
{
    if len <= n {
        match path_step(dag, guards, n, cur as int, len) {
            Some(b) => {
                lemma_first_true(guards, dag[cur as int], 0);
                lemma_path_from(dag, guards, n, b, len + 1);
                let r = path_from(dag, guards, n, cur as int, len);
                let tail = path_from(dag, guards, n, b as int, len + 1);
                let full = seq![cur] + r;
                let tfull = seq![b] + tail;
                assert(r == tfull);
                assert forall|i: int| 0 <= i < r.len() implies (#[trigger] r[i]) < n && guard_true(
                    guards,
                    r[i] as int,
                ) by {
                    if i > 0 {
                        assert(r[i] == tail[i - 1]);
                    }
                }
                assert forall|i: int| 0 <= i < r.len() implies (#[trigger] full[i]) < dag.len()
                    && dag[full[i] as int].contains(full[i + 1]) by {
                    if i > 0 {
                        assert(full[i] == tfull[i - 1]);
                        assert(full[i + 1] == tfull[i]);
                    } else {
                        assert(full[1] == b);
                    }
                }
            },
            None => {},
        }
    }
}

proof fn lemma_first_true(guards: Map<Seq<char>, bool>, succs: Seq<u32>, from: int)
    ensures
        match first_true(guards, succs, from) {
            Some(b) => succs.contains(b) && guard_true(guards, b as int),
            None => true,
        },
    decreases succs.len() - from,
{
    if 0 <= from < succs.len() {
        if !guard_true(guards, succs[from] as int) {
            lemma_first_true(guards, succs, from + 1);
        }
    }
}

/// A violating path is empty or starts at the entry block; it stays inside the function,
/// only passes blocks whose guard is true, and goes along kept edges.
pub proof fn path_follows_true_guards(n: nat, dag: Seq<Seq<u32>>, guards: Map<Seq<char>, bool>)
    ensures
        ({
            let r = path_of(n, dag, guards);
            &&& r.len() > 0 ==> r[0] == 0
            &&& r.len() <= n + 1
            &&& forall|i: int|
                0 <= i < r.len() ==> (#[trigger] r[i]) < n && guard_true(guards, r[i] as int)
            &&& forall|i: int|
                0 <= i < r.len() - 1 ==> (#[trigger] r[i]) < dag.len() && dag[r[i] as int].contains(
                    r[i + 1],
                )
        }),
{
    if n > 0 && guard_true(guards, 0) {
        lemma_path_from(dag, guards, n, 0, 1);
        let tail = path_from(dag, guards, n, 0, 1);
        let r = path_of(n, dag, guards);
        assert(r == seq![0u32] + tail);
        assert forall|i: int| 0 <= i < r.len() implies (#[trigger] r[i]) < n && guard_true(
            guards,
            r[i] as int,
        ) by {
            if i > 0 {
                assert(r[i] == tail[i - 1]);
            }
        }
    }
}

} // verus!
