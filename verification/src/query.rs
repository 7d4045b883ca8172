//! Solver queries and their SMT-LIB text.

use vstd::prelude::*;
use crate::order::{codes, lex_lt, lex_lt_irreflexive, lex_lt_total, lex_lt_transitive};
use crate::term::{lemma_and_view, terms, BvBinOp, BvCmpOp, Sort, Term, TermV};
use crate::text::{dec, push_dec, text_before};

verus! {

/// A declared constant: its name and sort.
pub type Const = (String, Sort);

/// The models of a vector of declared constants.
pub open spec fn consts_v(v: Seq<Const>) -> Seq<(Seq<char>, Sort)> {
    Seq::new(v.len(), |i: int| (v[i].0@, v[i].1))
}

/// A datatype of the encoding: pointers, and slice values as a length and a capacity.
///
/// The slice datatype is called `GoSeq` because solvers reserve the name `Seq`.
#[derive(Debug, Clone, Copy, PartialEq, Eq, Structural)]
pub enum DatatypeDecl {
    Ptr,
    GoSeq,
}

impl DatatypeDecl {
    /// The sort of the datatype's values.
    pub open spec fn sort_of(self) -> Sort {
        match self {
            DatatypeDecl::Ptr => Sort::Ptr,
            DatatypeDecl::GoSeq => Sort::GoSeq,
        }
    }

    /// The sort of the datatype's values.
    pub fn sort(self) -> (r: Sort)
        ensures
            r == self.sort_of(),
    {
        match self {
            DatatypeDecl::Ptr => Sort::Ptr,
            DatatypeDecl::GoSeq => Sort::GoSeq,
        }
    }

    /// The declaration as text.
    pub open spec fn text_of(self) -> Seq<char> {
        match self {
            DatatypeDecl::Ptr
            => "(declare-datatypes ((Ptr 0)) (((ptr-nil) (ptr-addr (addr (_ BitVec 64))))))\n"@,
            DatatypeDecl::GoSeq
            => "(declare-datatypes ((GoSeq 0)) (((seq-val (seq-len (_ BitVec 64)) (seq-cap (_ BitVec 64))))))\n"@,
        }
    }

    /// The declaration as text.
    pub fn text(self) -> (r: &'static str)
        ensures
            r@ == self.text_of(),
    {
        match self {
            DatatypeDecl::Ptr
            => "(declare-datatypes ((Ptr 0)) (((ptr-nil) (ptr-addr (addr (_ BitVec 64))))))\n",
            DatatypeDecl::GoSeq
            => "(declare-datatypes ((GoSeq 0)) (((seq-val (seq-len (_ BitVec 64)) (seq-cap (_ BitVec 64))))))\n",
        }
    }
}

/// The pointer datatype.
pub fn ptr_datatype() -> (r: DatatypeDecl)
    ensures
        r == DatatypeDecl::Ptr,
{
    DatatypeDecl::Ptr
}

/// The datatype of slices and strings: contents are not modelled, only length and capacity.
pub fn seq_datatype() -> (r: DatatypeDecl)
    ensures
        r == DatatypeDecl::GoSeq,
{
    DatatypeDecl::GoSeq
}

/// A satisfiability question: declared constants and asserted terms. Both datatypes are
/// declared always.
#[derive(Debug, PartialEq, Eq)]
pub struct Query {
    pub consts: Vec<Const>,
    pub asserts: Vec<Term>,
}

/// The model of a [`Query`].
#[verifier::ext_equal]
pub struct QueryV {
    pub consts: Seq<(Seq<char>, Sort)>,
    pub asserts: Seq<TermV>,
}

impl View for Query {
    type V = QueryV;

    open spec fn view(&self) -> QueryV {
        QueryV { consts: consts_v(self.consts@), asserts: terms(self.asserts@) }
    }
}

/// A solver's answer.
#[derive(Debug, Clone, Copy, PartialEq, Eq, Structural)]
pub enum SatResult {
    Sat,
    Unsat,
    Unknown,
}

/// A copy of declared constants.
pub fn copy_consts(v: &Vec<Const>) -> (r: Vec<Const>)
    ensures
        consts_v(r@) == consts_v(v@),
{
    let mut out: Vec<Const> = Vec::new();
    let mut i: usize = 0;
    while i < v.len()
        invariant
            i <= v@.len(),
            out@.len() == i,
            forall|j: int| 0 <= j < i ==> (#[trigger] out@[j]).0@ == v@[j].0@ && out@[j].1 == v@[j].1,
        decreases v@.len() - i,
    {
        out.push((v[i].0.clone(), v[i].1));
        i += 1;
    }
    assert(consts_v(out@) =~= consts_v(v@));
    out
}

/// The place of a sort in the order of sorts.
pub open spec fn sort_rank(s: Sort) -> (int, int) {
    match s {
        Sort::Bool => (0, 0),
        Sort::BitVec(w) => (1, w as int),
        Sort::GoSeq => (2, 0),
        Sort::Ptr => (3, 0),
    }
}

/// Whether `a` comes strictly before `b`: by name, then by sort.
pub open spec fn const_lt(a: (Seq<char>, Sort), b: (Seq<char>, Sort)) -> bool {
    if a.0 == b.0 {
        let x = sort_rank(a.1);
        let y = sort_rank(b.1);
        x.0 < y.0 || (x.0 == y.0 && x.1 < y.1)
    } else {
        lex_lt(codes(a.0), codes(b.0))
    }
}

/// The number of entries at the start of `s` that do not come after `c`.
pub open spec fn place(s: Seq<(Seq<char>, Sort)>, c: (Seq<char>, Sort)) -> int
    decreases s.len(),
{
    if s.len() == 0 || const_lt(c, s[0]) {
        0
    } else {
        1 + place(s.drop_first(), c)
    }
}

/// `s` in order.
pub open spec fn sorted_consts(s: Seq<(Seq<char>, Sort)>) -> Seq<(Seq<char>, Sort)>
    decreases s.len(),
{
    if s.len() == 0 {
        s
    } else {
        let rest = sorted_consts(s.drop_last());
        rest.insert(place(rest, s.last()), s.last())
    }
}

fn sort_before(a: Sort, b: Sort) -> (r: bool)
    ensures
        r == (sort_rank(a).0 < sort_rank(b).0 || (sort_rank(a).0 == sort_rank(b).0 && sort_rank(a).1
            < sort_rank(b).1)),
{
    match (a, b) {
        (Sort::BitVec(x), Sort::BitVec(y)) => x < y,
        (Sort::Bool, Sort::Bool) => false,
        (Sort::Bool, _) => true,
        (_, Sort::Bool) => false,
        (Sort::BitVec(_), _) => true,
        (_, Sort::BitVec(_)) => false,
        (Sort::GoSeq, Sort::Ptr) => true,
        _ => false,
    }
}

fn const_before(a: &Const, b: &Const) -> (r: bool)
    ensures
        r == const_lt((a.0@, a.1), (b.0@, b.1)),
{
    if a.0 == b.0 {
        sort_before(a.1, b.1)
    } else {
        text_before(a.0.as_str(), b.0.as_str())
    }
}

/// The constants in order.
pub fn sort_consts(v: &Vec<Const>) -> (r: Vec<Const>)
    ensures
        consts_v(r@) == sorted_consts(consts_v(v@)),
{
    let mut out: Vec<Const> = Vec::new();
    let mut i: usize = 0;
    let ghost all = consts_v(v@);
    assert(consts_v(out@) =~= all.take(0));
    while i < v.len()
        invariant
            i <= v@.len(),
            all == consts_v(v@),
            consts_v(out@) == sorted_consts(all.take(i as int)),
        decreases v@.len() - i,
    {
        let ghost cur = consts_v(out@);
        let ghost c = all[i as int];
        let mut at: usize = 0;
        assert(cur.skip(0) =~= cur);
        while at < out.len() && !const_before(&v[i], &out[at])
            invariant
                i < v@.len(),
                at <= out@.len(),
                cur == consts_v(out@),
                all == consts_v(v@),
                c == all[i as int],
                place(cur, c) == at + place(cur.skip(at as int), c),
            decreases out@.len() - at,
        {
            assert(cur.skip(at as int)[0] == cur[at as int]);
            assert(cur.skip(at as int).drop_first() =~= cur.skip(at as int + 1));
            at += 1;
        }
        proof {
            if at < out@.len() {
                assert(cur.skip(at as int)[0] == cur[at as int]);
            }
            assert(place(cur, c) == at);
        }
        let ghost before = out@;
        out.insert(at, (v[i].0.clone(), v[i].1));
        proof {
            assert(consts_v(out@) =~= cur.insert(at as int, c));
            assert(all.take(i as int + 1).drop_last() =~= all.take(i as int));
            assert(all.take(i as int + 1).last() == c);
        }
        i += 1;
    }
    assert(all.take(all.len() as int) =~= all);
    out
}

/// The name of a sort.
pub open spec fn sort_text(s: Sort) -> Seq<char> {
    match s {
        Sort::Bool => "Bool"@,
        Sort::BitVec(w) => "(_ BitVec "@ + dec(w as nat) + ")"@,
        Sort::GoSeq => "GoSeq"@,
        Sort::Ptr => "Ptr"@,
    }
}

/// The name of a bitvector operation.
pub open spec fn bin_text(o: BvBinOp) -> Seq<char> {
    match o {
        BvBinOp::Add => "bvadd"@,
        BvBinOp::Sub => "bvsub"@,
        BvBinOp::Mul => "bvmul"@,
        BvBinOp::And => "bvand"@,
        BvBinOp::Or => "bvor"@,
        BvBinOp::Xor => "bvxor"@,
        BvBinOp::Shl => "bvshl"@,
        BvBinOp::Ashr => "bvashr"@,
        BvBinOp::Lshr => "bvlshr"@,
        BvBinOp::Sdiv => "bvsdiv"@,
        BvBinOp::Udiv => "bvudiv"@,
        BvBinOp::Srem => "bvsrem"@,
        BvBinOp::Urem => "bvurem"@,
    }
}

/// The name of a bitvector comparison.
pub open spec fn comparison_text(o: BvCmpOp) -> Seq<char> {
    match o {
        BvCmpOp::Ult => "bvult"@,
        BvCmpOp::Ule => "bvule"@,
        BvCmpOp::Slt => "bvslt"@,
        BvCmpOp::Sle => "bvsle"@,
    }
}

/// `(head a)`.
pub open spec fn app1(head: Seq<char>, a: Seq<char>) -> Seq<char> {
    "("@ + head + " "@ + a + ")"@
}

/// `(head a b)`.
pub open spec fn app2(head: Seq<char>, a: Seq<char>, b: Seq<char>) -> Seq<char> {
    "("@ + head + " "@ + a + " "@ + b + ")"@
}

/// A term as text.
pub open spec fn term_text(t: TermV) -> Seq<char>
    decreases t, 0nat,
{
    match t {
        TermV::Var(n, _) => n,
        TermV::BoolLit(b) => if b { "true"@ } else { "false"@ },
        TermV::BvLit(w, v) => "(_ bv"@ + dec(v as nat) + " "@ + dec(w as nat) + ")"@,
        TermV::Eq(a, b) => app2("="@, term_text(*a), term_text(*b)),
        TermV::Not(a) => app1("not"@, term_text(*a)),
        TermV::And(v) => "(and"@ + list_text(v, v.len()) + ")"@,
        TermV::Or(v) => "(or"@ + list_text(v, v.len()) + ")"@,
        TermV::Ite(c, a, b) => "(ite "@ + term_text(*c) + " "@ + term_text(*a) + " "@ + term_text(*b)
            + ")"@,
        TermV::BvBin(o, a, b) => app2(bin_text(o), term_text(*a), term_text(*b)),
        TermV::BvCmp(o, a, b) => app2(comparison_text(o), term_text(*a), term_text(*b)),
        TermV::PtrNil => "ptr-nil"@,
        TermV::PtrIsNil(a) => app1("(_ is ptr-nil)"@, term_text(*a)),
        TermV::SeqVal(a, b) => app2("seq-val"@, term_text(*a), term_text(*b)),
        TermV::SeqLen(a) => app1("seq-len"@, term_text(*a)),
        TermV::SeqCap(a) => app1("seq-cap"@, term_text(*a)),
    }
}

/// The first `n` of `v` as text, each after a blank.
pub open spec fn list_text(v: Seq<TermV>, n: nat) -> Seq<char>
    decreases v, n,
{
    if n == 0 || n > v.len() {
        Seq::empty()
    } else {
        list_text(v, (n - 1) as nat) + " "@ + term_text(v[n - 1])
    }
}

fn wrap1(head: &str, a: String) -> (r: String)
    ensures
        r@ == app1(head@, a@),
{
    let mut out = "(".to_string();
    out.append(head);
    out.append(" ");
    out.append(a.as_str());
    out.append(")");
    out
}

fn wrap2(head: &str, a: String, b: String) -> (r: String)
    ensures
        r@ == app2(head@, a@, b@),
{
    let mut out = "(".to_string();
    out.append(head);
    out.append(" ");
    out.append(a.as_str());
    out.append(" ");
    out.append(b.as_str());
    out.append(")");
    out
}

fn bin_name(o: BvBinOp) -> (r: &'static str)
    ensures
        r@ == bin_text(o),
{
    match o {
        BvBinOp::Add => "bvadd",
        BvBinOp::Sub => "bvsub",
        BvBinOp::Mul => "bvmul",
        BvBinOp::And => "bvand",
        BvBinOp::Or => "bvor",
        BvBinOp::Xor => "bvxor",
        BvBinOp::Shl => "bvshl",
        BvBinOp::Ashr => "bvashr",
        BvBinOp::Lshr => "bvlshr",
        BvBinOp::Sdiv => "bvsdiv",
        BvBinOp::Udiv => "bvudiv",
        BvBinOp::Srem => "bvsrem",
        BvBinOp::Urem => "bvurem",
    }
}

fn comparison_name(o: BvCmpOp) -> (r: &'static str)
    ensures
        r@ == comparison_text(o),
{
    match o {
        BvCmpOp::Ult => "bvult",
        BvCmpOp::Ule => "bvule",
        BvCmpOp::Slt => "bvslt",
        BvCmpOp::Sle => "bvsle",
    }
}

/// A term as text.
pub fn term_string(t: &Term) -> (r: String)
    ensures
        r@ == term_text(t@),
    decreases t,
{
    match t {
        Term::Var(n, _) => n.clone(),
        Term::BoolLit(b) => if *b { "true".to_string() } else { "false".to_string() },
        Term::BvLit(w, v) => {
            let mut out = "(_ bv".to_string();
            push_dec(&mut out, *v);
            out.append(" ");
            push_dec(&mut out, *w as u128);
            out.append(")");
            out
        },
        Term::Eq(a, b) => wrap2("=", term_string(a), term_string(b)),
        Term::Not(a) => wrap1("not", term_string(a)),
        Term::And(v) => {
            assert(decreases_to!(t => v@));
            proof {
                lemma_and_view(*v);
            }
            let mut out = "(and".to_string();
            out.append(list_string(v).as_str());
            out.append(")");
            out
        },
        Term::Or(v) => {
            assert(decreases_to!(t => v@));
            proof {
                lemma_and_view(*v);
            }
            let mut out = "(or".to_string();
            out.append(list_string(v).as_str());
            out.append(")");
            out
        },
        Term::Ite(c, a, b) => {
            let mut out = "(ite ".to_string();
            out.append(term_string(c).as_str());
            out.append(" ");
            out.append(term_string(a).as_str());
            out.append(" ");
            out.append(term_string(b).as_str());
            out.append(")");
            out
        },
        Term::BvBin(o, a, b) => wrap2(bin_name(*o), term_string(a), term_string(b)),
        Term::BvCmp(o, a, b) => wrap2(comparison_name(*o), term_string(a), term_string(b)),
        Term::PtrNil => "ptr-nil".to_string(),
        Term::PtrIsNil(a) => wrap1("(_ is ptr-nil)", term_string(a)),
        Term::SeqVal(a, b) => wrap2("seq-val", term_string(a), term_string(b)),
        Term::SeqLen(a) => wrap1("seq-len", term_string(a)),
        Term::SeqCap(a) => wrap1("seq-cap", term_string(a)),
    }
}

fn list_string(v: &Vec<Term>) -> (r: String)
    ensures
        r@ == list_text(terms(v@), v@.len()),
    decreases v@,
{
    let mut out = String::new();
    let mut i: usize = 0;
    while i < v.len()
        invariant
            i <= v@.len(),
            out@ == list_text(terms(v@), i as nat),
        decreases v@.len() - i,
    {
        assert(decreases_to!(v@ => v@[i as int]));
        out.append(" ");
        out.append(term_string(&v[i]).as_str());
        i += 1;
        assert(terms(v@)[i - 1] == v@[i - 1]@);
    }
    out
}

/// The declarations of the first `n` constants.
pub open spec fn const_lines(v: Seq<(Seq<char>, Sort)>, n: int) -> Seq<char>
    decreases n,
{
    if n <= 0 {
        Seq::empty()
    } else {
        const_lines(v, n - 1) + "(declare-const "@ + v[n - 1].0 + " "@ + sort_text(v[n - 1].1) + ")\n"@
    }
}

/// The first `n` assertions.
pub open spec fn assert_lines(v: Seq<TermV>, n: int) -> Seq<char>
    decreases n,
{
    if n <= 0 {
        Seq::empty()
    } else {
        assert_lines(v, n - 1) + "(assert "@ + term_text(v[n - 1]) + ")\n"@
    }
}

/// A query as text.
pub open spec fn query_text(q: QueryV) -> Seq<char> {
    "(set-logic ALL)\n"@ + DatatypeDecl::Ptr.text_of() + DatatypeDecl::GoSeq.text_of() + const_lines(
        q.consts,
        q.consts.len() as int,
    ) + assert_lines(q.asserts, q.asserts.len() as int) + "(check-sat)\n"@
}

fn push_sort(out: &mut String, s: Sort)
    ensures
        final(out)@ == old(out)@ + sort_text(s),
{
    let ghost o = out@;
    match s {
        Sort::Bool => {
            out.append("Bool");
        },
        Sort::BitVec(w) => {
            out.append("(_ BitVec ");
            push_dec(out, w as u128);
            out.append(")");
            assert(out@ =~= o + sort_text(s));
        },
        Sort::GoSeq => {
            out.append("GoSeq");
        },
        Sort::Ptr => {
            out.append("Ptr");
        },
    }
}

impl Query {
    /// The query as text: the same query always gives the same text.
    pub fn canonical_text(&self) -> (r: String)
        ensures
            r@ == query_text(self@),
    {
        let mut out = "(set-logic ALL)\n".to_string();
        out.append(ptr_datatype().text());
        out.append(seq_datatype().text());
        let ghost head = out@;
        let ghost cs = consts_v(self.consts@);
        let ghost ts = terms(self.asserts@);
        let mut i: usize = 0;
        assert(head + const_lines(cs, 0) =~= head);
        while i < self.consts.len()
            invariant
                i <= self.consts@.len(),
                cs == consts_v(self.consts@),
                out@ == head + const_lines(cs, i as int),
            decreases self.consts@.len() - i,
        {
            out.append("(declare-const ");
            out.append(self.consts[i].0.as_str());
            out.append(" ");
            push_sort(&mut out, self.consts[i].1);
            out.append(")\n");
            i += 1;
            assert(out@ =~= head + const_lines(cs, i as int));
        }
        let ghost mid = out@;
        let mut j: usize = 0;
        assert(mid + assert_lines(ts, 0) =~= mid);
        while j < self.asserts.len()
            invariant
                j <= self.asserts@.len(),
                ts == terms(self.asserts@),
                out@ == mid + assert_lines(ts, j as int),
            decreases self.asserts@.len() - j,
        {
            out.append("(assert ");
            out.append(term_string(&self.asserts[j]).as_str());
            out.append(")\n");
            j += 1;
            assert(out@ =~= mid + assert_lines(ts, j as int));
        }
        out.append("(check-sat)\n");
        out
    }

    /// A copy.
    pub fn dup(&self) -> (r: Query)
        ensures
            r@ == self@,
    {
        Query { consts: copy_consts(&self.consts), asserts: Term::dup_list(&self.asserts) }
    }
}

proof fn lemma_const_lt_total(a: (Seq<char>, Sort), b: (Seq<char>, Sort))
    ensures
        a == b || const_lt(a, b) || const_lt(b, a),
{
    if a.0 != b.0 {
        lex_lt_total(codes(a.0), codes(b.0));
        if codes(a.0) == codes(b.0) {
            crate::order::codes_injective(a.0, b.0);
        }
    }
}

proof fn lemma_const_le_trans(a: (Seq<char>, Sort), b: (Seq<char>, Sort), c: (Seq<char>, Sort))
    requires
        !const_lt(b, a),
        !const_lt(c, b),
    ensures
        !const_lt(c, a),
{
    lemma_const_lt_total(a, b);
    lemma_const_lt_total(b, c);
    if const_lt(c, a) {
        if a.0 == b.0 && b.0 == c.0 {
        } else if a.0 == b.0 {
        } else if b.0 == c.0 {
        } else if a.0 == c.0 {
            lex_lt_transitive(codes(a.0), codes(b.0), codes(c.0));
            lex_lt_irreflexive(codes(a.0));
        } else {
            lex_lt_transitive(codes(a.0), codes(b.0), codes(c.0));
            lex_lt_transitive(codes(a.0), codes(c.0), codes(a.0));
            lex_lt_irreflexive(codes(a.0));
        }
    }
}

/// Whether no entry comes before an earlier one.
pub open spec fn is_sorted(s: Seq<(Seq<char>, Sort)>) -> bool {
    forall|i: int, j: int| 0 <= i <= j < s.len() ==> !const_lt(#[trigger] s[j], #[trigger] s[i])
}

/// Where a constant is inserted, what stands before it is not larger and what stands behind
/// it is not smaller.
pub proof fn lemma_place_sorted(s: Seq<(Seq<char>, Sort)>, c: (Seq<char>, Sort))
    requires
        is_sorted(s),
    ensures
        0 <= place(s, c) <= s.len(),
        forall|i: int| 0 <= i < place(s, c) ==> !const_lt(c, #[trigger] s[i]),
        forall|i: int| place(s, c) <= i < s.len() ==> !const_lt(#[trigger] s[i], c),
    decreases s.len(),
{
    if s.len() == 0 {
    } else if const_lt(c, s[0]) {
        assert forall|i: int| 0 <= i < s.len() implies !const_lt(#[trigger] s[i], c) by {
            assert(!const_lt(s[i], s[0]));
            if const_lt(s[i], c) {
                lemma_const_lt_asym(c, s[0]);
                lemma_const_lt_asym(s[i], c);
                lemma_const_le_trans(s[0], s[i], c);
            }
        }
    } else {
        let t = s.drop_first();
        assert forall|i: int, j: int| 0 <= i <= j < t.len() implies !const_lt(
            #[trigger] t[j],
            #[trigger] t[i],
        ) by {
            assert(!const_lt(s[j + 1], s[i + 1]));
        }
        lemma_place_sorted(t, c);
        assert forall|i: int| 0 <= i < place(s, c) implies !const_lt(c, #[trigger] s[i]) by {
            if i > 0 {
                assert(s[i] == t[i - 1]);
            }
        }
        assert forall|i: int| place(s, c) <= i < s.len() implies !const_lt(#[trigger] s[i], c) by {
            assert(s[i] == t[i - 1]);
        }
    }
}

proof fn lemma_const_lt_asym(a: (Seq<char>, Sort), b: (Seq<char>, Sort))
    requires
        const_lt(a, b),
    ensures
        !const_lt(b, a),
{
    if a.0 != b.0 && const_lt(b, a) {
        lex_lt_transitive(codes(a.0), codes(b.0), codes(a.0));
        lex_lt_irreflexive(codes(a.0));
    }
}

/// Sorting orders the constants and neither adds nor drops one.
pub proof fn sorted_consts_sorts(s: Seq<(Seq<char>, Sort)>)
    ensures
        is_sorted(sorted_consts(s)),
        sorted_consts(s).to_multiset() == s.to_multiset(),
        sorted_consts(s).len() == s.len(),
        forall|c: (Seq<char>, Sort)| #[trigger] sorted_consts(s).contains(c) == s.contains(c),
    decreases s.len(),
{
    broadcast use vstd::seq_lib::group_to_multiset_ensures;
    if s.len() > 0 {
        let rest = sorted_consts(s.drop_last());
        let c = s.last();
        let at = place(rest, c);
        sorted_consts_sorts(s.drop_last());
        lemma_place_sorted(rest, c);
        let r = rest.insert(at, c);
        assert forall|i: int, j: int| 0 <= i <= j < r.len() implies !const_lt(
            #[trigger] r[j],
            #[trigger] r[i],
        ) by {
            let oi = if i < at { i } else { i - 1 };
            let oj = if j < at { j } else { j - 1 };
            if i == j {
                if const_lt(r[i], r[i]) {
                    lemma_const_lt_asym(r[i], r[i]);
                }
            } else if i == at {
                assert(r[j] == rest[oj]);
            } else if j == at {
                assert(r[i] == rest[oi]);
            } else {
                assert(r[i] == rest[oi] && r[j] == rest[oj]);
            }
        }
        vstd::seq_lib::to_multiset_insert(rest, at, c);
        assert(s =~= s.drop_last().push(c));
        assert(s.to_multiset() =~= s.drop_last().to_multiset().insert(c));
        assert(r.to_multiset() =~= s.to_multiset());
    }
    assert forall|c: (Seq<char>, Sort)| #[trigger] sorted_consts(s).contains(c) == s.contains(c) by {
        assert(sorted_consts(s).to_multiset().count(c) == s.to_multiset().count(c));
        s.to_multiset_ensures();
        sorted_consts(s).to_multiset_ensures();
    }
}

} // verus!
