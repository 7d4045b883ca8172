//! Decimal numerals and character-level helpers on text.

use vstd::prelude::*;
use crate::order::{codes, codes_injective, lex_lt, Key};

verus! {

/// `String::push` appends one character.
pub assume_specification[ String::push ](s: &mut String, c: char)
    ensures
        final(s)@ == old(s)@.push(c),
;

/// The character of a decimal digit.
pub open spec fn digit_char(d: int) -> char {
    if d == 0 { '0' } else if d == 1 { '1' } else if d == 2 { '2' } else if d == 3 { '3' }
    else if d == 4 { '4' } else if d == 5 { '5' } else if d == 6 { '6' } else if d == 7 { '7' }
    else if d == 8 { '8' } else { '9' }
}

/// The decimal numeral of `n`.
pub open spec fn dec(n: nat) -> Seq<char>
    decreases n,
{
    if n < 10 {
        seq![digit_char(n as int)]
    } else {
        dec(n / 10).push(digit_char((n % 10) as int))
    }
}

/// Whether `c` is a decimal digit.
pub open spec fn is_digit(c: char) -> bool {
    '0' <= c <= '9'
}

/// The number that a sequence of digits denotes.
pub open spec fn digits_value(s: Seq<char>) -> nat
    decreases s.len(),
{
    if s.len() == 0 {
        0
    } else {
        10 * digits_value(s.drop_last()) + (s.last() as int - '0' as int) as nat
    }
}

/// A numeral consists of digits only, and denotes the number that it was made from.
pub proof fn dec_denotes(n: nat)
    ensures
        dec(n).len() > 0,
        all_digits(dec(n)),
        digits_value(dec(n)) == n,
    decreases n,
{
    if n < 10 {
        let s = seq![digit_char(n as int)];
        assert(s.drop_last() =~= Seq::<char>::empty());
        assert(digits_value(s.drop_last()) == 0);
    } else {
        dec_denotes(n / 10);
        assert(dec(n).drop_last() =~= dec(n / 10));
    }
}

/// Different numbers have different numerals.
pub proof fn dec_injective(a: nat, b: nat)
    requires
        dec(a) == dec(b),
    ensures
        a == b,
{
    dec_denotes(a);
    dec_denotes(b);
}

fn digit(d: u8) -> (c: char)
    requires
        d < 10,
    ensures
        c == digit_char(d as int),
{
    match d {
        0 => '0',
        1 => '1',
        2 => '2',
        3 => '3',
        4 => '4',
        5 => '5',
        6 => '6',
        7 => '7',
        8 => '8',
        _ => '9',
    }
}

/// Appends the decimal numeral of `n`.
pub fn push_dec(s: &mut String, n: u128)
    ensures
        final(s)@ == old(s)@ + dec(n as nat),
    decreases n,
{
    if n >= 10 {
        push_dec(s, n / 10);
    }
    s.push(digit((n % 10) as u8));
}

/// `prefix` followed by the decimal numeral of `n`.
pub fn numbered(prefix: &str, n: u128) -> (r: String)
    ensures
        r@ == prefix@ + dec(n as nat),
{
    let mut s = prefix.to_string();
    push_dec(&mut s, n);
    s
}

/// Code points are not negative.
pub proof fn char_nonneg(c: char)
    ensures
        0 <= c as int,
{
}

/// The code point of a character.
pub fn code_of(c: char) -> (r: u32)
    ensures
        r as int == c as int,
{
    c as u32
}

/// The characters of a text.
pub fn chars_of(s: &str) -> (r: Vec<char>)
    ensures
        r@ == s@,
{
    let mut out: Vec<char> = Vec::new();
    for c in it: s.chars()
        invariant
            it.seq() == s@,
            out@ == s@.take(it.index() as int),
    {
        out.push(c);
        assert(s@.take(it.index() as int + 1) =~= s@.take(it.index() as int).push(c));
    }
    assert(s@.take(s@.len() as int) =~= s@);
    out
}

/// The text made of the characters `from <= i < to`.
pub fn text_of(cs: &Vec<char>, from: usize, to: usize) -> (r: String)
    requires
        from <= to <= cs@.len(),
    ensures
        r@ == cs@.subrange(from as int, to as int),
{
    let mut s = String::new();
    let mut i: usize = from;
    assert(s@ =~= cs@.subrange(from as int, from as int));
    while i < to
        invariant
            from <= i <= to <= cs@.len(),
            s@ == cs@.subrange(from as int, i as int),
        decreases to - i,
    {
        s.push(cs[i]);
        assert(cs@.subrange(from as int, i as int + 1) =~= cs@.subrange(from as int, i as int).push(
            cs@[i as int],
        ));
        i += 1;
    }
    s
}

/// What reading `s` as an unsigned 32-bit number gives: an optional plus sign and
/// then digits only, at least one, within range.
pub open spec fn parse_u32_spec(s: Seq<char>) -> Option<u32> {
    unsigned_value(if s.len() > 0 && s[0] == '+' { s.drop_first() } else { s })
}

/// The 32-bit number that `t` denotes, if it is a nonempty sequence of digits in range.
pub open spec fn unsigned_value(t: Seq<char>) -> Option<u32> {
    if t.len() > 0 && all_digits(t) && digits_value(t) <= u32::MAX {
        Some(digits_value(t) as u32)
    } else {
        None
    }
}

/// Whether `s` consists of digits only.
pub open spec fn all_digits(s: Seq<char>) -> bool {
    forall|i: int| 0 <= i < s.len() ==> is_digit(#[trigger] s[i])
}

proof fn digits_value_prefix(s: Seq<char>, i: int)
    requires
        0 <= i <= s.len(),
        all_digits(s),
    ensures
        digits_value(s.take(i)) <= digits_value(s),
    decreases s.len() - i,
{
    if i < s.len() {
        digits_value_prefix(s, i + 1);
        assert(s.take(i + 1).drop_last() =~= s.take(i));
        assert(is_digit(s[i]));
        assert(s.take(i + 1).last() == s[i]);
    } else {
        assert(s.take(i) =~= s);
    }
}

/// Reads characters `from..` of `cs` as an unsigned 32-bit number.
pub fn parse_u32(cs: &Vec<char>, from: usize) -> (r: Option<u32>)
    requires
        from <= cs@.len(),
    ensures
        r == parse_u32_spec(cs@.skip(from as int)),
{
    let ghost s = cs@.skip(from as int);
    let start = if from < cs.len() && cs[from] == '+' { from + 1 } else { from };
    let ghost t = cs@.skip(start as int);
    assert(t =~= if s.len() > 0 && s[0] == '+' { s.drop_first() } else { s });
    if start >= cs.len() {
        return None;
    }
    let mut i: usize = start;
    let mut acc: u64 = 0;
    assert(t.take(0) =~= Seq::<char>::empty());
    while i < cs.len()
        invariant
            start <= i <= cs@.len(),
            t == cs@.skip(start as int),
            forall|j: int| 0 <= j < i - start ==> is_digit(#[trigger] t[j]),
            acc == digits_value(t.take(i - start)),
            acc <= u32::MAX,
            s == cs@.skip(from as int),
            t == (if s.len() > 0 && s[0] == '+' { s.drop_first() } else { s }),
            i < cs@.len() ==> t.len() > 0,
        decreases cs@.len() - i,
    {
        let c = cs[i];
        assert(t[i - start] == c);
        if c < '0' || c > '9' {
            assert(!is_digit(t[i - start]));
            return None;
        }
        let ghost k = i - start + 1;
        assert(t.take(k).drop_last() =~= t.take(i - start));
        assert(t.take(k).last() == c);
        acc = acc * 10 + (c as u32 - '0' as u32) as u64;
        assert(acc == digits_value(t.take(k)));
        i += 1;
        if acc > u32::MAX as u64 {
            proof {
                if all_digits(t) {
                    digits_value_prefix(t, k);
                }
            }
            return None;
        }
    }
    assert(t.take(t.len() as int) =~= t);
    Some(acc as u32)
}

/// A numeral reads back as its number.
pub proof fn parse_of_dec(n: u32)
    ensures
        parse_u32_spec(dec(n as nat)) == Some(n),
{
    dec_denotes(n as nat);
    assert(is_digit(dec(n as nat)[0]));
}

impl Key for String {
    open spec fn key_of(v: Seq<char>) -> Seq<int> {
        codes(v)
    }

    proof fn key_injective(a: Seq<char>, b: Seq<char>) {
        codes_injective(a, b);
    }

    fn before(&self, other: &Self) -> (r: bool) {
        text_before(self.as_str(), other.as_str())
    }
}

/// Whether `a` comes strictly before `b` in code-point order.
pub fn text_before(a: &str, b: &str) -> (r: bool)
    ensures
        r == lex_lt(codes(a@), codes(b@)),
{
    let x = chars_of(a);
    let y = chars_of(b);
    let mut i: usize = 0;
    assert(codes(a@).skip(0) =~= codes(a@));
    assert(codes(b@).skip(0) =~= codes(b@));
    while i < x.len() && i < y.len()
        invariant
            i <= x@.len(),
            i <= y@.len(),
            x@ == a@,
            y@ == b@,
            lex_lt(codes(a@), codes(b@)) == lex_lt(
                codes(a@).skip(i as int),
                codes(b@).skip(i as int),
            ),
        decreases x@.len() - i,
    {
        let ghost p = codes(a@).skip(i as int);
        let ghost q = codes(b@).skip(i as int);
        assert(p[0] == x@[i as int] as int && q[0] == y@[i as int] as int);
        if x[i] != y[i] {
            return x[i] < y[i];
        }
        assert(p.drop_first() =~= codes(a@).skip(i as int + 1));
        assert(q.drop_first() =~= codes(b@).skip(i as int + 1));
        i += 1;
    }
    i < y.len()
}

} // verus!
