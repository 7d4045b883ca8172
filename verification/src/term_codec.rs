//! Terms as bytes. Reading checks sorts again, so only well-sorted terms come back.

use vstd::prelude::*;
use crate::codec::{
    code_round_trip, le_bytes, pow256, put_le, put_str, read_code, read_count, read_le_round_trip,
    take_count, take_u8, text_bytes, Codec, Coded,
};
use crate::term::{
    lemma_and_view, mk_and, mk_bin, mk_cap, mk_compare, mk_eq, mk_is_nil, mk_ite, mk_len, mk_not,
    mk_or, mk_seq, opt_term, ptr_is_nil, terms, BvBinOp, BvCmpOp, Sort, Term, TermV,
};

verus! {

/// The version of the term format.
pub const TERM_CODEC_VERSION: u8 = 1;

/// How deep a term may be to be read: a bound for the stack.
pub const MAX_TERM_DEPTH: usize = 512;

impl View for BvBinOp {
    type V = BvBinOp;

    open spec fn view(&self) -> BvBinOp {
        *self
    }
}

impl View for BvCmpOp {
    type V = BvCmpOp;

    open spec fn view(&self) -> BvCmpOp {
        *self
    }
}

impl Coded for BvBinOp {
    open spec fn code_of(v: BvBinOp) -> u8 {
        match v {
            BvBinOp::Add => 0,
            BvBinOp::Sub => 1,
            BvBinOp::Mul => 2,
            BvBinOp::And => 3,
            BvBinOp::Or => 4,
            BvBinOp::Xor => 5,
            BvBinOp::Shl => 6,
            BvBinOp::Ashr => 7,
            BvBinOp::Lshr => 8,
            BvBinOp::Sdiv => 9,
            BvBinOp::Udiv => 10,
            BvBinOp::Srem => 11,
            BvBinOp::Urem => 12,
        }
    }

    open spec fn of_code(b: u8) -> Option<BvBinOp> {
        if b == 0 {
            Some(BvBinOp::Add)
        } else if b == 1 {
            Some(BvBinOp::Sub)
        } else if b == 2 {
            Some(BvBinOp::Mul)
        } else if b == 3 {
            Some(BvBinOp::And)
        } else if b == 4 {
            Some(BvBinOp::Or)
        } else if b == 5 {
            Some(BvBinOp::Xor)
        } else if b == 6 {
            Some(BvBinOp::Shl)
        } else if b == 7 {
            Some(BvBinOp::Ashr)
        } else if b == 8 {
            Some(BvBinOp::Lshr)
        } else if b == 9 {
            Some(BvBinOp::Sdiv)
        } else if b == 10 {
            Some(BvBinOp::Udiv)
        } else if b == 11 {
            Some(BvBinOp::Srem)
        } else if b == 12 {
            Some(BvBinOp::Urem)
        } else {
            None
        }
    }

    proof fn coded(v: BvBinOp) {
    }

    proof fn view_self(v: BvBinOp) {
    }

    fn code(&self) -> (r: u8) {
        match self {
            BvBinOp::Add => 0,
            BvBinOp::Sub => 1,
            BvBinOp::Mul => 2,
            BvBinOp::And => 3,
            BvBinOp::Or => 4,
            BvBinOp::Xor => 5,
            BvBinOp::Shl => 6,
            BvBinOp::Ashr => 7,
            BvBinOp::Lshr => 8,
            BvBinOp::Sdiv => 9,
            BvBinOp::Udiv => 10,
            BvBinOp::Srem => 11,
            BvBinOp::Urem => 12,
        }
    }

    fn from_code(b: u8) -> (r: Option<BvBinOp>) {
        match b {
            0 => Some(BvBinOp::Add),
            1 => Some(BvBinOp::Sub),
            2 => Some(BvBinOp::Mul),
            3 => Some(BvBinOp::And),
            4 => Some(BvBinOp::Or),
            5 => Some(BvBinOp::Xor),
            6 => Some(BvBinOp::Shl),
            7 => Some(BvBinOp::Ashr),
            8 => Some(BvBinOp::Lshr),
            9 => Some(BvBinOp::Sdiv),
            10 => Some(BvBinOp::Udiv),
            11 => Some(BvBinOp::Srem),
            12 => Some(BvBinOp::Urem),
            _ => None,
        }
    }
}

impl Coded for BvCmpOp {
    open spec fn code_of(v: BvCmpOp) -> u8 {
        match v {
            BvCmpOp::Ult => 0,
            BvCmpOp::Ule => 1,
            BvCmpOp::Slt => 2,
            BvCmpOp::Sle => 3,
        }
    }

    open spec fn of_code(b: u8) -> Option<BvCmpOp> {
        if b == 0 {
            Some(BvCmpOp::Ult)
        } else if b == 1 {
            Some(BvCmpOp::Ule)
        } else if b == 2 {
            Some(BvCmpOp::Slt)
        } else if b == 3 {
            Some(BvCmpOp::Sle)
        } else {
            None
        }
    }

    proof fn coded(v: BvCmpOp) {
    }

    proof fn view_self(v: BvCmpOp) {
    }

    fn code(&self) -> (r: u8) {
        match self {
            BvCmpOp::Ult => 0,
            BvCmpOp::Ule => 1,
            BvCmpOp::Slt => 2,
            BvCmpOp::Sle => 3,
        }
    }

    fn from_code(b: u8) -> (r: Option<BvCmpOp>) {
        match b {
            0 => Some(BvCmpOp::Ult),
            1 => Some(BvCmpOp::Ule),
            2 => Some(BvCmpOp::Slt),
            3 => Some(BvCmpOp::Sle),
            _ => None,
        }
    }
}

impl Codec for Sort {
    open spec fn bytes_of(v: Sort) -> Seq<u8> {
        match v {
            Sort::Bool => seq![0u8],
            Sort::BitVec(w) => seq![1u8] + <u32 as Codec>::bytes_of(w),
            Sort::GoSeq => seq![2u8],
            Sort::Ptr => seq![3u8],
        }
    }

    open spec fn read(s: Seq<u8>) -> Option<(Sort, Seq<u8>)> {
        match read_code(s) {
            Some((b, rest)) => if b == 0 {
                Some((Sort::Bool, rest))
            } else if b == 1 {
                match <u32 as Codec>::read(rest) {
                    Some((w, rest)) => Some((Sort::BitVec(w), rest)),
                    None => None,
                }
            } else if b == 2 {
                Some((Sort::GoSeq, rest))
            } else if b == 3 {
                Some((Sort::Ptr, rest))
            } else {
                None
            },
            None => None,
        }
    }

    open spec fn encodable(v: Sort) -> bool {
        true
    }

    open spec fn valid(&self) -> bool {
        true
    }

    proof fn round_trip(v: Sort, rest: Seq<u8>) {
        match v {
            Sort::Bool => code_round_trip(0, rest),
            Sort::BitVec(w) => {
                <u32 as Codec>::round_trip(w, rest);
                let b = <u32 as Codec>::bytes_of(w);
                code_round_trip(1, b + rest);
                assert(Self::bytes_of(v) + rest =~= seq![1u8] + (b + rest));
            },
            Sort::GoSeq => code_round_trip(2, rest),
            Sort::Ptr => code_round_trip(3, rest),
        }
    }

    fn put(&self, out: &mut Vec<u8>) {
        let ghost before = out@;
        match self {
            Sort::Bool => {
                out.push(0);
            },
            Sort::BitVec(w) => {
                out.push(1);
                w.put(out);
            },
            Sort::GoSeq => {
                out.push(2);
            },
            Sort::Ptr => {
                out.push(3);
            },
        }
        assert(out@ =~= before + Self::bytes_of(self@));
    }

    fn take(input: &Vec<u8>, at: usize) -> (r: Option<(Sort, usize)>) {
        match take_u8(input, at) {
            Some((b, k)) => match b {
                0 => Some((Sort::Bool, k)),
                1 => match <u32 as Codec>::take(input, k) {
                    Some((w, k)) => Some((Sort::BitVec(w), k)),
                    None => None,
                },
                2 => Some((Sort::GoSeq, k)),
                3 => Some((Sort::Ptr, k)),
                _ => None,
            },
            None => None,
        }
    }
}

// ---- Terms ----

/// The bytes of a term: a code for its outermost symbol, then its parts.
pub open spec fn term_bytes(t: TermV) -> Seq<u8>
    decreases t, 0nat,
{
    match t {
        TermV::Var(n, s) => seq![0u8] + text_bytes(n) + <Sort as Codec>::bytes_of(s),
        TermV::BoolLit(b) => seq![1u8, if b { 1u8 } else { 0u8 }],
        TermV::BvLit(w, v) => seq![2u8] + <u32 as Codec>::bytes_of(w) + <u128 as Codec>::bytes_of(v),
        TermV::Eq(a, b) => seq![3u8] + term_bytes(*a) + term_bytes(*b),
        TermV::Not(a) => seq![4u8] + term_bytes(*a),
        TermV::And(v) => seq![5u8] + le_bytes(4, v.len()) + terms_bytes(v, v.len()),
        TermV::Or(v) => seq![6u8] + le_bytes(4, v.len()) + terms_bytes(v, v.len()),
        TermV::Ite(c, a, b) => seq![7u8] + term_bytes(*c) + term_bytes(*a) + term_bytes(*b),
        TermV::BvBin(o, a, b) => seq![8u8, BvBinOp::code_of(o)] + term_bytes(*a) + term_bytes(*b),
        TermV::BvCmp(o, a, b) => seq![9u8, BvCmpOp::code_of(o)] + term_bytes(*a) + term_bytes(*b),
        TermV::PtrNil => seq![10u8],
        TermV::PtrIsNil(a) => seq![11u8] + term_bytes(*a),
        TermV::SeqVal(a, b) => seq![12u8] + term_bytes(*a) + term_bytes(*b),
        TermV::SeqLen(a) => seq![13u8] + term_bytes(*a),
        TermV::SeqCap(a) => seq![14u8] + term_bytes(*a),
    }
}

/// The bytes of the first `n` terms.
pub open spec fn terms_bytes(v: Seq<TermV>, n: nat) -> Seq<u8>
    decreases v, n,
{
    if n == 0 || n > v.len() {
        Seq::empty()
    } else {
        terms_bytes(v, (n - 1) as nat) + term_bytes(v[n - 1])
    }
}

/// A term that may have failed to build, with what is left.
pub open spec fn with_rest(t: Option<TermV>, rest: Seq<u8>) -> Option<(TermV, Seq<u8>)> {
    match t {
        Some(t) => Some((t, rest)),
        None => None,
    }
}

/// Reads one term at a depth of at most `depth`.
pub open spec fn read_one(s: Seq<u8>, depth: nat) -> Option<(TermV, Seq<u8>)>
    decreases depth, 0nat,
{
    if depth == 0 {
        None
    } else {
        let d = (depth - 1) as nat;
        match read_code(s) {
            None => None,
            Some((c, r)) => if c == 0 {
                match <String as Codec>::read(r) {
                    Some((n, r)) => match <Sort as Codec>::read(r) {
                        Some((u, r)) => Some((TermV::Var(n, u), r)),
                        None => None,
                    },
                    None => None,
                }
            } else if c == 1 {
                match read_code(r) {
                    Some((b, r)) => if b == 0 {
                        Some((TermV::BoolLit(false), r))
                    } else if b == 1 {
                        Some((TermV::BoolLit(true), r))
                    } else {
                        None
                    },
                    None => None,
                }
            } else if c == 2 {
                match <u32 as Codec>::read(r) {
                    Some((w, r)) => match <u128 as Codec>::read(r) {
                        Some((v, r)) => Some((TermV::BvLit(w, v), r)),
                        None => None,
                    },
                    None => None,
                }
            } else if c == 5 || c == 6 {
                match read_count(r) {
                    Some((n, r)) => match read_terms(r, n, d, Seq::empty()) {
                        Some((v, r)) => with_rest(if c == 5 { mk_and(v) } else { mk_or(v) }, r),
                        None => None,
                    },
                    None => None,
                }
            } else if c == 10 {
                Some((TermV::PtrNil, r))
            } else if c == 4 || c == 11 || c == 13 || c == 14 {
                match read_one(r, d) {
                    Some((a, r)) => with_rest(one_of(c, a), r),
                    None => None,
                }
            } else if c == 3 || c == 12 {
                match read_two(r, d) {
                    Some((a, b, r)) => with_rest(if c == 3 { mk_eq(a, b) } else { mk_seq(a, b) }, r),
                    None => None,
                }
            } else if c == 7 {
                match read_one(r, d) {
                    Some((x, r)) => match read_two(r, d) {
                        Some((a, b, r)) => with_rest(mk_ite(x, a, b), r),
                        None => None,
                    },
                    None => None,
                }
            } else if c == 8 {
                match <BvBinOp as Codec>::read(r) {
                    Some((o, r)) => match read_two(r, d) {
                        Some((a, b, r)) => with_rest(mk_bin(o, a, b), r),
                        None => None,
                    },
                    None => None,
                }
            } else if c == 9 {
                match <BvCmpOp as Codec>::read(r) {
                    Some((o, r)) => match read_two(r, d) {
                        Some((a, b, r)) => with_rest(mk_compare(o, a, b), r),
                        None => None,
                    },
                    None => None,
                }
            } else {
                None
            },
        }
    }
}

/// The term with one part.
pub open spec fn one_of(c: u8, a: TermV) -> Option<TermV> {
    if c == 4 {
        mk_not(a)
    } else if c == 11 {
        mk_is_nil(a)
    } else if c == 13 {
        mk_len(a)
    } else {
        mk_cap(a)
    }
}

/// Reads two terms.
pub open spec fn read_two(s: Seq<u8>, depth: nat) -> Option<(TermV, TermV, Seq<u8>)>
    decreases depth, 1nat,
{
    match read_one(s, depth) {
        Some((a, r)) => match read_one(r, depth) {
            Some((b, r)) => Some((a, b, r)),
            None => None,
        },
        None => None,
    }
}

/// Reads `n` more terms after `acc`.
pub open spec fn read_terms(s: Seq<u8>, n: nat, depth: nat, acc: Seq<TermV>) -> Option<
    (Seq<TermV>, Seq<u8>),
>
    decreases depth, n + 1,
{
    if n == 0 {
        Some((acc, s))
    } else {
        match read_one(s, depth) {
            Some((t, r)) => read_terms(r, (n - 1) as nat, depth, acc.push(t)),
            None => None,
        }
    }
}

/// Whether a term is within the limits of the format: names and lists are not too long, it is
/// at most `depth` deep, and its symbols are applied to arguments of their sorts.
pub open spec fn term_fits(t: TermV, depth: nat) -> bool
    decreases depth,
{
    depth > 0 && {
        let d = (depth - 1) as nat;
        match t {
            TermV::Var(n, s) => <String as Codec>::encodable(n),
            TermV::BoolLit(_) | TermV::BvLit(_, _) | TermV::PtrNil => true,
            TermV::Eq(a, b) => term_fits(*a, d) && term_fits(*b, d) && mk_eq(*a, *b) is Some,
            TermV::Not(a) => term_fits(*a, d) && mk_not(*a) is Some,
            TermV::And(v) => v.len() < pow256(4) && mk_and(v) is Some && forall|i: int|
                0 <= i < v.len() ==> term_fits(#[trigger] v[i], d),
            TermV::Or(v) => v.len() < pow256(4) && mk_or(v) is Some && forall|i: int|
                0 <= i < v.len() ==> term_fits(#[trigger] v[i], d),
            TermV::Ite(c, a, b) => term_fits(*c, d) && term_fits(*a, d) && term_fits(*b, d) && mk_ite(
                *c,
                *a,
                *b,
            ) is Some,
            TermV::BvBin(o, a, b) => term_fits(*a, d) && term_fits(*b, d) && mk_bin(o, *a, *b) is Some,
            TermV::BvCmp(o, a, b) => term_fits(*a, d) && term_fits(*b, d) && mk_compare(o, *a, *b)
                is Some,
            TermV::PtrIsNil(a) => term_fits(*a, d) && mk_is_nil(*a) is Some,
            TermV::SeqVal(a, b) => term_fits(*a, d) && term_fits(*b, d) && mk_seq(*a, *b) is Some,
            TermV::SeqLen(a) => term_fits(*a, d) && mk_len(*a) is Some,
            TermV::SeqCap(a) => term_fits(*a, d) && mk_cap(*a) is Some,
        }
    }
}

/// Whether the term reads back from its bytes before `rest`.
#[verifier::opaque]
spec fn reads_back(t: TermV, depth: nat, rest: Seq<u8>) -> bool {
    read_one(term_bytes(t) + rest, depth) == Some((t, rest)) && term_bytes(t).len() > 0
}

proof fn lemma_split(v: Seq<TermV>, n: nat)
    requires
        n <= v.len(),
        v.len() > 0,
        n > 0,
    ensures
        terms_bytes(v, n) == term_bytes(v[0]) + terms_bytes(v.skip(1), (n - 1) as nat),
    decreases n,
{
    if n == 1 {
        assert(terms_bytes(v, 0) =~= Seq::<u8>::empty());
        assert(terms_bytes(v.skip(1), 0) =~= Seq::<u8>::empty());
        assert(terms_bytes(v, 1) =~= term_bytes(v[0]) + Seq::<u8>::empty());
    } else {
        lemma_split(v, (n - 1) as nat);
        assert(v.skip(1)[n - 2] == v[n - 1]);
        assert(terms_bytes(v, n) =~= term_bytes(v[0]) + terms_bytes(v.skip(1), (n - 1) as nat));
    }
}

proof fn lemma_many(v: Seq<TermV>, depth: nat, rest: Seq<u8>, acc: Seq<TermV>)
    requires
        forall|i: int| 0 <= i < v.len() ==> term_fits(#[trigger] v[i], depth),
    ensures
        read_terms(terms_bytes(v, v.len()) + rest, v.len(), depth, acc) == Some((acc + v, rest)),
        terms_bytes(v, v.len()).len() >= v.len(),
    decreases depth, v.len() + 1,
{
    if v.len() == 0 {
        assert(terms_bytes(v, 0) + rest =~= rest);
        assert(acc + v =~= acc);
    } else {
        let tail = v.skip(1);
        let tb = terms_bytes(tail, tail.len());
        lemma_split(v, v.len());
        assert(terms_bytes(v, v.len()) + rest =~= term_bytes(v[0]) + (tb + rest));
        lemma_one(v[0], depth, tb + rest);
        reveal(reads_back);
        assert forall|i: int| 0 <= i < tail.len() implies term_fits(#[trigger] tail[i], depth) by {
            assert(tail[i] == v[i + 1]);
        }
        lemma_many(tail, depth, rest, acc.push(v[0]));
        assert(acc.push(v[0]) + tail =~= acc + v);
    }
}

proof fn lemma_list(c: u8, v: Seq<TermV>, d: nat, rest: Seq<u8>)
    requires
        c == 5 || c == 6,
        v.len() < pow256(4),
        read_terms(terms_bytes(v, v.len()) + rest, v.len(), d, Seq::empty()) == Some((v, rest)),
        terms_bytes(v, v.len()).len() >= v.len(),
    ensures
        read_one(
            seq![c] + le_bytes(4, v.len()) + terms_bytes(v, v.len()) + rest,
            d + 1,
        ) == with_rest(
            if c == 5 {
                mk_and(v)
            } else {
                mk_or(v)
            },
            rest,
        ),
{
    let b = terms_bytes(v, v.len());
    read_le_round_trip(4, v.len(), b + rest);
    let tail = le_bytes(4, v.len()) + (b + rest);
    assert(seq![c] + le_bytes(4, v.len()) + b + rest =~= seq![c] + tail);
    code_round_trip(c, tail);
}

proof fn lemma_nil(depth: nat, rest: Seq<u8>)
    requires
        depth > 0,
    ensures
        reads_back(TermV::PtrNil, depth, rest),
{
    reveal(reads_back);
    code_round_trip(10, rest);
}

proof fn lemma_var(n: Seq<char>, u: Sort, depth: nat, rest: Seq<u8>)
    requires
        depth > 0,
        <String as Codec>::encodable(n),
    ensures
        reads_back(TermV::Var(n, u), depth, rest),
{
    reveal(reads_back);
    let s = term_bytes(TermV::Var(n, u)) + rest;
    let sb = <Sort as Codec>::bytes_of(u);
    <String as Codec>::round_trip(n, sb + rest);
    <Sort as Codec>::round_trip(u, rest);
    assert(s =~= seq![0u8] + (text_bytes(n) + (sb + rest)));
    code_round_trip(0, text_bytes(n) + (sb + rest));
}

proof fn lemma_bool(b: bool, depth: nat, rest: Seq<u8>)
    requires
        depth > 0,
    ensures
        reads_back(TermV::BoolLit(b), depth, rest),
{
    reveal(reads_back);
    let s = term_bytes(TermV::BoolLit(b)) + rest;
    let x: u8 = if b { 1 } else { 0 };
    assert(s =~= seq![1u8] + (seq![x] + rest));
    code_round_trip(1, seq![x] + rest);
    code_round_trip(x, rest);
}

proof fn lemma_lit(w: u32, v: u128, depth: nat, rest: Seq<u8>)
    requires
        depth > 0,
    ensures
        reads_back(TermV::BvLit(w, v), depth, rest),
{
    reveal(reads_back);
    let s = term_bytes(TermV::BvLit(w, v)) + rest;
    let vb = <u128 as Codec>::bytes_of(v);
    let wb = <u32 as Codec>::bytes_of(w);
    <u32 as Codec>::round_trip(w, vb + rest);
    <u128 as Codec>::round_trip(v, rest);
    assert(s =~= seq![2u8] + (wb + (vb + rest)));
    code_round_trip(2, wb + (vb + rest));
}

proof fn lemma_apply_one(c: u8, a: TermV, d: nat, rest: Seq<u8>)
    requires
        c == 4 || c == 11 || c == 13 || c == 14,
        read_one(term_bytes(a) + rest, d) == Some((a, rest)),
    ensures
        read_one(seq![c] + term_bytes(a) + rest, d + 1) == with_rest(one_of(c, a), rest),
{
    assert(seq![c] + term_bytes(a) + rest =~= seq![c] + (term_bytes(a) + rest));
    code_round_trip(c, term_bytes(a) + rest);
}

proof fn lemma_apply_two(c: u8, a: TermV, b: TermV, d: nat, rest: Seq<u8>)
    requires
        c == 3 || c == 12,
        read_two(term_bytes(a) + (term_bytes(b) + rest), d) == Some((a, b, rest)),
    ensures
        read_one(seq![c] + term_bytes(a) + term_bytes(b) + rest, d + 1) == with_rest(
            if c == 3 {
                mk_eq(a, b)
            } else {
                mk_seq(a, b)
            },
            rest,
        ),
{
    let tail = term_bytes(a) + (term_bytes(b) + rest);
    assert(seq![c] + term_bytes(a) + term_bytes(b) + rest =~= seq![c] + tail);
    code_round_trip(c, tail);
}

proof fn lemma_apply_ite(x: TermV, a: TermV, b: TermV, d: nat, rest: Seq<u8>)
    requires
        read_two(term_bytes(a) + (term_bytes(b) + rest), d) == Some((a, b, rest)),
        read_one(term_bytes(x) + (term_bytes(a) + (term_bytes(b) + rest)), d) == Some(
            (x, term_bytes(a) + (term_bytes(b) + rest)),
        ),
    ensures
        read_one(seq![7u8] + term_bytes(x) + term_bytes(a) + term_bytes(b) + rest, d + 1)
            == with_rest(mk_ite(x, a, b), rest),
{
    let tail = term_bytes(a) + (term_bytes(b) + rest);
    assert(seq![7u8] + term_bytes(x) + term_bytes(a) + term_bytes(b) + rest =~= seq![7u8] + (
    term_bytes(x) + tail));
    code_round_trip(7, term_bytes(x) + tail);
}

proof fn lemma_apply_bin(o: BvBinOp, a: TermV, b: TermV, d: nat, rest: Seq<u8>)
    requires
        read_two(term_bytes(a) + (term_bytes(b) + rest), d) == Some((a, b, rest)),
    ensures
        read_one(seq![8u8, BvBinOp::code_of(o)] + term_bytes(a) + term_bytes(b) + rest, d + 1)
            == with_rest(mk_bin(o, a, b), rest),
{
    let tail = term_bytes(a) + (term_bytes(b) + rest);
    <BvBinOp as Codec>::round_trip(o, tail);
    let ob = <BvBinOp as Codec>::bytes_of(o);
    assert(seq![8u8, BvBinOp::code_of(o)] + term_bytes(a) + term_bytes(b) + rest =~= seq![8u8] + (
    ob + tail));
    code_round_trip(8, ob + tail);
}

proof fn lemma_apply_order(o: BvCmpOp, a: TermV, b: TermV, d: nat, rest: Seq<u8>)
    requires
        read_two(term_bytes(a) + (term_bytes(b) + rest), d) == Some((a, b, rest)),
    ensures
        read_one(seq![9u8, BvCmpOp::code_of(o)] + term_bytes(a) + term_bytes(b) + rest, d + 1)
            == with_rest(mk_compare(o, a, b), rest),
{
    let tail = term_bytes(a) + (term_bytes(b) + rest);
    <BvCmpOp as Codec>::round_trip(o, tail);
    let ob = <BvCmpOp as Codec>::bytes_of(o);
    assert(seq![9u8, BvCmpOp::code_of(o)] + term_bytes(a) + term_bytes(b) + rest =~= seq![9u8] + (
    ob + tail));
    code_round_trip(9, ob + tail);
}

proof fn lemma_not(a: TermV, d: nat, rest: Seq<u8>)
    requires
        reads_back(a, d, rest),
        mk_not(a) is Some,
    ensures
        reads_back(TermV::Not(Box::new(a)), d + 1, rest),
{
    reveal(reads_back);
    lemma_apply_one(4, a, d, rest);
}

proof fn lemma_is_nil(a: TermV, d: nat, rest: Seq<u8>)
    requires
        reads_back(a, d, rest),
        mk_is_nil(a) is Some,
    ensures
        reads_back(TermV::PtrIsNil(Box::new(a)), d + 1, rest),
{
    reveal(reads_back);
    lemma_apply_one(11, a, d, rest);
}

proof fn lemma_len(a: TermV, d: nat, rest: Seq<u8>)
    requires
        reads_back(a, d, rest),
        mk_len(a) is Some,
    ensures
        reads_back(TermV::SeqLen(Box::new(a)), d + 1, rest),
{
    reveal(reads_back);
    lemma_apply_one(13, a, d, rest);
}

proof fn lemma_cap(a: TermV, d: nat, rest: Seq<u8>)
    requires
        reads_back(a, d, rest),
        mk_cap(a) is Some,
    ensures
        reads_back(TermV::SeqCap(Box::new(a)), d + 1, rest),
{
    reveal(reads_back);
    lemma_apply_one(14, a, d, rest);
}

proof fn lemma_eq(a: TermV, b: TermV, d: nat, rest: Seq<u8>)
    requires
        reads_back(a, d, term_bytes(b) + rest),
        reads_back(b, d, rest),
        mk_eq(a, b) is Some,
    ensures
        reads_back(TermV::Eq(Box::new(a), Box::new(b)), d + 1, rest),
{
    reveal(reads_back);
    lemma_apply_two(3, a, b, d, rest);
}

proof fn lemma_seq(a: TermV, b: TermV, d: nat, rest: Seq<u8>)
    requires
        reads_back(a, d, term_bytes(b) + rest),
        reads_back(b, d, rest),
        mk_seq(a, b) is Some,
    ensures
        reads_back(TermV::SeqVal(Box::new(a), Box::new(b)), d + 1, rest),
{
    reveal(reads_back);
    lemma_apply_two(12, a, b, d, rest);
}

proof fn lemma_ite(x: TermV, a: TermV, b: TermV, d: nat, rest: Seq<u8>)
    requires
        reads_back(x, d, term_bytes(a) + (term_bytes(b) + rest)),
        reads_back(a, d, term_bytes(b) + rest),
        reads_back(b, d, rest),
        mk_ite(x, a, b) is Some,
    ensures
        reads_back(TermV::Ite(Box::new(x), Box::new(a), Box::new(b)), d + 1, rest),
{
    reveal(reads_back);
    lemma_apply_ite(x, a, b, d, rest);
}

proof fn lemma_bin(o: BvBinOp, a: TermV, b: TermV, d: nat, rest: Seq<u8>)
    requires
        reads_back(a, d, term_bytes(b) + rest),
        reads_back(b, d, rest),
        mk_bin(o, a, b) is Some,
    ensures
        reads_back(TermV::BvBin(o, Box::new(a), Box::new(b)), d + 1, rest),
{
    reveal(reads_back);
    lemma_apply_bin(o, a, b, d, rest);
}

proof fn lemma_order(o: BvCmpOp, a: TermV, b: TermV, d: nat, rest: Seq<u8>)
    requires
        reads_back(a, d, term_bytes(b) + rest),
        reads_back(b, d, rest),
        mk_compare(o, a, b) is Some,
    ensures
        reads_back(TermV::BvCmp(o, Box::new(a), Box::new(b)), d + 1, rest),
{
    reveal(reads_back);
    lemma_apply_order(o, a, b, d, rest);
}

proof fn lemma_and(v: Seq<TermV>, d: nat, rest: Seq<u8>)
    requires
        v.len() < pow256(4),
        read_terms(terms_bytes(v, v.len()) + rest, v.len(), d, Seq::empty()) == Some((v, rest)),
        terms_bytes(v, v.len()).len() >= v.len(),
        mk_and(v) is Some,
    ensures
        reads_back(TermV::And(v), d + 1, rest),
{
    reveal(reads_back);
    lemma_list(5, v, d, rest);
}

proof fn lemma_or(v: Seq<TermV>, d: nat, rest: Seq<u8>)
    requires
        v.len() < pow256(4),
        read_terms(terms_bytes(v, v.len()) + rest, v.len(), d, Seq::empty()) == Some((v, rest)),
        terms_bytes(v, v.len()).len() >= v.len(),
        mk_or(v) is Some,
    ensures
        reads_back(TermV::Or(v), d + 1, rest),
{
    reveal(reads_back);
    lemma_list(6, v, d, rest);
}

/// A term that was written reads back.
proof fn lemma_one(t: TermV, depth: nat, rest: Seq<u8>)
    requires
        term_fits(t, depth),
    ensures
        reads_back(t, depth, rest),
    decreases depth, 0nat,
{
    let d = (depth - 1) as nat;
    match t {
        TermV::Var(n, u) => lemma_var(n, u, depth, rest),
        TermV::BoolLit(b) => lemma_bool(b, depth, rest),
        TermV::BvLit(w, v) => lemma_lit(w, v, depth, rest),
        TermV::PtrNil => lemma_nil(depth, rest),
        TermV::Eq(a, b) => {
            lemma_one(*a, d, term_bytes(*b) + rest);
            lemma_one(*b, d, rest);
            lemma_eq(*a, *b, d, rest);
        },
        TermV::Not(a) => {
            lemma_one(*a, d, rest);
            lemma_not(*a, d, rest);
        },
        TermV::And(v) => {
            lemma_many(v, d, rest, Seq::empty());
            assert(Seq::<TermV>::empty() + v =~= v);
            lemma_and(v, d, rest);
        },
        TermV::Or(v) => {
            lemma_many(v, d, rest, Seq::empty());
            assert(Seq::<TermV>::empty() + v =~= v);
            lemma_or(v, d, rest);
        },
        TermV::Ite(c, a, b) => {
            lemma_one(*c, d, term_bytes(*a) + (term_bytes(*b) + rest));
            lemma_one(*a, d, term_bytes(*b) + rest);
            lemma_one(*b, d, rest);
            lemma_ite(*c, *a, *b, d, rest);
        },
        TermV::BvBin(o, a, b) => {
            lemma_one(*a, d, term_bytes(*b) + rest);
            lemma_one(*b, d, rest);
            lemma_bin(o, *a, *b, d, rest);
        },
        TermV::BvCmp(o, a, b) => {
            lemma_one(*a, d, term_bytes(*b) + rest);
            lemma_one(*b, d, rest);
            lemma_order(o, *a, *b, d, rest);
        },
        TermV::PtrIsNil(a) => {
            lemma_one(*a, d, rest);
            lemma_is_nil(*a, d, rest);
        },
        TermV::SeqVal(a, b) => {
            lemma_one(*a, d, term_bytes(*b) + rest);
            lemma_one(*b, d, rest);
            lemma_seq(*a, *b, d, rest);
        },
        TermV::SeqLen(a) => {
            lemma_one(*a, d, rest);
            lemma_len(*a, d, rest);
        },
        TermV::SeqCap(a) => {
            lemma_one(*a, d, rest);
            lemma_cap(*a, d, rest);
        },
    }
}

/// Appends a term.
pub fn encode_term(t: &Term, out: &mut Vec<u8>)
    ensures
        final(out)@ == old(out)@ + term_bytes(t@),
    decreases t,
{
    let ghost before = out@;
    match t {
        Term::Var(n, s) => {
            out.push(0);
            put_str(out, n.as_str());
            s.put(out);
        },
        Term::BoolLit(b) => {
            out.push(1);
            out.push(if *b {
                1
            } else {
                0
            });
        },
        Term::BvLit(w, v) => {
            out.push(2);
            w.put(out);
            v.put(out);
        },
        Term::Eq(a, b) => {
            out.push(3);
            encode_term(a, out);
            encode_term(b, out);
        },
        Term::Not(a) => {
            out.push(4);
            encode_term(a, out);
        },
        Term::And(v) => {
            assert(decreases_to!(t => v@));
            proof {
                lemma_and_view(*v);
            }
            out.push(5);
            encode_terms(v, out);
        },
        Term::Or(v) => {
            assert(decreases_to!(t => v@));
            proof {
                lemma_and_view(*v);
            }
            out.push(6);
            encode_terms(v, out);
        },
        Term::Ite(c, a, b) => {
            out.push(7);
            encode_term(c, out);
            encode_term(a, out);
            encode_term(b, out);
        },
        Term::BvBin(o, a, b) => {
            out.push(8);
            out.push(o.code());
            encode_term(a, out);
            encode_term(b, out);
        },
        Term::BvCmp(o, a, b) => {
            out.push(9);
            out.push(o.code());
            encode_term(a, out);
            encode_term(b, out);
        },
        Term::PtrNil => {
            out.push(10);
        },
        Term::PtrIsNil(a) => {
            out.push(11);
            encode_term(a, out);
        },
        Term::SeqVal(a, b) => {
            out.push(12);
            encode_term(a, out);
            encode_term(b, out);
        },
        Term::SeqLen(a) => {
            out.push(13);
            encode_term(a, out);
        },
        Term::SeqCap(a) => {
            out.push(14);
            encode_term(a, out);
        },
    }
    assert(out@ =~= before + term_bytes(t@));
}

fn encode_terms(v: &Vec<Term>, out: &mut Vec<u8>)
    ensures
        final(out)@ == old(out)@ + le_bytes(4, v@.len()) + terms_bytes(terms(v@), v@.len()),
    decreases v@,
{
    put_le(out, 4, v.len() as u128);
    let ghost head = out@;
    assert(head + terms_bytes(terms(v@), 0) =~= head);
    let mut i: usize = 0;
    while i < v.len()
        invariant
            i <= v@.len(),
            out@ == head + terms_bytes(terms(v@), i as nat),
        decreases v@.len() - i,
    {
        assert(decreases_to!(v@ => v@[i as int]));
        encode_term(&v[i], out);
        assert(terms(v@)[i as int] == v@[i as int]@);
        i += 1;
        assert(out@ =~= head + terms_bytes(terms(v@), i as nat));
    }
}

fn placed(t: Option<Term>, k: usize) -> (r: Option<(Term, usize)>)
    ensures
        match r {
            Some((x, j)) => opt_term(t) == Some(x@) && j == k,
            None => t is None,
        },
{
    match t {
        Some(t) => Some((t, k)),
        None => None,
    }
}

/// Reads a term at `at`, at most `depth` deep.
pub fn decode_term(input: &Vec<u8>, at: usize, depth: usize) -> (r: Option<(Term, usize)>)
    requires
        at <= input@.len(),
    ensures
        match r {
            Some((t, k)) => read_one(input@.skip(at as int), depth as nat) == Some(
                (t@, input@.skip(k as int)),
            ) && at <= k <= input@.len(),
            None => read_one(input@.skip(at as int), depth as nat) is None,
        },
    decreases depth, 0nat,
{
    if depth == 0 {
        return None;
    }
    let d = depth - 1;
    let (c, k) = match take_u8(input, at) {
        Some(x) => x,
        None => {
            return None;
        },
    };
    match c {
        0 => match String::take(input, k) {
            Some((n, k)) => match Sort::take(input, k) {
                Some((s, k)) => Some((Term::Var(n, s), k)),
                None => None,
            },
            None => None,
        },
        1 => match take_u8(input, k) {
            Some((b, k)) => match b {
                0 => Some((Term::BoolLit(false), k)),
                1 => Some((Term::BoolLit(true), k)),
                _ => None,
            },
            None => None,
        },
        2 => match <u32 as Codec>::take(input, k) {
            Some((w, k)) => match <u128 as Codec>::take(input, k) {
                Some((v, k)) => Some((Term::BvLit(w, v), k)),
                None => None,
            },
            None => None,
        },
        3 => match decode_two(input, k, d) {
            Some((a, b, k)) => placed(Term::eq(a, b), k),
            None => None,
        },
        4 => match decode_term(input, k, d) {
            Some((a, k)) => placed(Term::not(a), k),
            None => None,
        },
        5 => match decode_terms(input, k, d) {
            Some((v, k)) => placed(Term::and(v), k),
            None => None,
        },
        6 => match decode_terms(input, k, d) {
            Some((v, k)) => placed(Term::or(v), k),
            None => None,
        },
        7 => match decode_term(input, k, d) {
            Some((x, k)) => match decode_two(input, k, d) {
                Some((a, b, k)) => placed(Term::ite(x, a, b), k),
                None => None,
            },
            None => None,
        },
        8 => match BvBinOp::take(input, k) {
            Some((o, k)) => match decode_two(input, k, d) {
                Some((a, b, k)) => placed(Term::bv_bin(o, a, b), k),
                None => None,
            },
            None => None,
        },
        9 => match BvCmpOp::take(input, k) {
            Some((o, k)) => match decode_two(input, k, d) {
                Some((a, b, k)) => placed(Term::bv_compare(o, a, b), k),
                None => None,
            },
            None => None,
        },
        10 => Some((Term::PtrNil, k)),
        11 => match decode_term(input, k, d) {
            Some((a, k)) => placed(ptr_is_nil(a), k),
            None => None,
        },
        12 => match decode_two(input, k, d) {
            Some((a, b, k)) => placed(Term::seq_val(a, b), k),
            None => None,
        },
        13 => match decode_term(input, k, d) {
            Some((a, k)) => placed(Term::seq_len(a), k),
            None => None,
        },
        14 => match decode_term(input, k, d) {
            Some((a, k)) => placed(Term::seq_cap(a), k),
            None => None,
        },
        _ => None,
    }
}

fn decode_two(input: &Vec<u8>, at: usize, depth: usize) -> (r: Option<(Term, Term, usize)>)
    requires
        at <= input@.len(),
    ensures
        match r {
            Some((a, b, k)) => read_two(input@.skip(at as int), depth as nat) == Some(
                (a@, b@, input@.skip(k as int)),
            ) && at <= k <= input@.len(),
            None => read_two(input@.skip(at as int), depth as nat) is None,
        },
    decreases depth, 1nat,
{
    match decode_term(input, at, depth) {
        Some((a, k)) => match decode_term(input, k, depth) {
            Some((b, k)) => Some((a, b, k)),
            None => None,
        },
        None => None,
    }
}

fn decode_terms(input: &Vec<u8>, at: usize, depth: usize) -> (r: Option<(Vec<Term>, usize)>)
    requires
        at <= input@.len(),
    ensures
        ({
            let want = match read_count(input@.skip(at as int)) {
                Some((n, rest)) => read_terms(rest, n, depth as nat, Seq::empty()),
                None => None,
            };
            match r {
                Some((v, k)) => want == Some((terms(v@), input@.skip(k as int))) && at <= k
                    <= input@.len(),
                None => want is None,
            }
        }),
    decreases depth, 2nat,
{
    let (n, k0) = match take_count(input, at) {
        Some(x) => x,
        None => {
            return None;
        },
    };
    let ghost whole = read_terms(input@.skip(k0 as int), n as nat, depth as nat, Seq::empty());
    let ghost counted = read_count(input@.skip(at as int));
    let mut out: Vec<Term> = Vec::new();
    let mut k = k0;
    let mut left = n;
    assert(terms(out@) =~= Seq::<TermV>::empty());
    while left > 0
        invariant
            at <= k <= input@.len(),
            whole == read_terms(input@.skip(k as int), left as nat, depth as nat, terms(out@)),
            whole == read_terms(input@.skip(k0 as int), n as nat, depth as nat, Seq::empty()),
            counted == read_count(input@.skip(at as int)),
            counted == Some((n as nat, input@.skip(k0 as int))),
        decreases left,
    {
        match decode_term(input, k, depth) {
            Some((t, next)) => {
                let ghost before = out@;
                let ghost tv = t@;
                out.push(t);
                assert(terms(out@) =~= terms(before).push(tv));
                k = next;
            },
            None => {
                return None;
            },
        }
        left -= 1;
    }
    Some((out, k))
}

impl Codec for Term {
    open spec fn bytes_of(v: TermV) -> Seq<u8> {
        term_bytes(v)
    }

    open spec fn read(s: Seq<u8>) -> Option<(TermV, Seq<u8>)> {
        read_one(s, MAX_TERM_DEPTH as nat)
    }

    open spec fn encodable(v: TermV) -> bool {
        term_fits(v, MAX_TERM_DEPTH as nat)
    }

    open spec fn valid(&self) -> bool {
        true
    }

    proof fn round_trip(v: TermV, rest: Seq<u8>) {
        lemma_one(v, MAX_TERM_DEPTH as nat, rest);
        reveal(reads_back);
    }

    fn put(&self, out: &mut Vec<u8>) {
        encode_term(self, out);
    }

    fn take(input: &Vec<u8>, at: usize) -> (r: Option<(Term, usize)>) {
        decode_term(input, at, MAX_TERM_DEPTH)
    }
}

} // verus!
