//! Values as bytes: the format of cached results.
//!
//! Numbers are little-endian, texts and lists carry their length in front, and choices start
//! with a code. What was written reads back; bytes of any other shape read as nothing.

use vstd::prelude::*;
use vstd::utf8::{decode_utf8, encode_utf8, valid_utf8};

verus! {

// ---- Numbers ----

/// 256 to the power of `n`.
pub open spec fn pow256(n: nat) -> nat
    decreases n,
{
    if n == 0 {
        1
    } else {
        256 * pow256((n - 1) as nat)
    }
}

/// The lowest `n` bytes of `x`, the lowest first.
pub open spec fn le_bytes(n: nat, x: nat) -> Seq<u8>
    decreases n,
{
    if n == 0 {
        Seq::empty()
    } else {
        seq![(x % 256) as u8] + le_bytes((n - 1) as nat, x / 256)
    }
}

/// The number with these bytes, the lowest first.
pub open spec fn le_value(s: Seq<u8>) -> nat
    decreases s.len(),
{
    if s.len() == 0 {
        0
    } else {
        s[0] as nat + 256 * le_value(s.drop_first())
    }
}

proof fn lemma_le_len(n: nat, x: nat)
    ensures
        le_bytes(n, x).len() == n,
    decreases n,
{
    if n > 0 {
        lemma_le_len((n - 1) as nat, x / 256);
    }
}

/// A number that fits in `n` bytes is read back from them.
pub proof fn le_round_trip(n: nat, x: nat)
    requires
        x < pow256(n),
    ensures
        le_bytes(n, x).len() == n,
        le_value(le_bytes(n, x)) == x,
    decreases n,
{
    lemma_le_len(n, x);
    if n > 0 {
        let m = (n - 1) as nat;
        assert(x / 256 < pow256(m));
        le_round_trip(m, x / 256);
        let s = le_bytes(n, x);
        assert(s.drop_first() =~= le_bytes(m, x / 256));
        assert(x == x % 256 + 256 * (x / 256));
    }
}

proof fn lemma_le_bound(s: Seq<u8>)
    ensures
        le_value(s) < pow256(s.len()),
    decreases s.len(),
{
    if s.len() > 0 {
        lemma_le_bound(s.drop_first());
    }
}

/// The powers that the format uses.
pub proof fn pow256_values()
    ensures
        pow256(4) == 0x1_0000_0000,
        pow256(8) == 0x1_0000_0000_0000_0000,
        pow256(16) == 0x1_0000_0000_0000_0000 * 0x1_0000_0000_0000_0000,
{
    reveal_with_fuel(pow256, 17);
}

proof fn lemma_pow_grows(a: nat, b: nat)
    requires
        a <= b,
    ensures
        pow256(a) <= pow256(b),
    decreases b - a,
{
    if a < b {
        lemma_pow_grows(a, (b - 1) as nat);
    }
}

/// Appends the lowest `n` bytes of `x`.
pub fn put_le(out: &mut Vec<u8>, n: usize, x: u128)
    ensures
        final(out)@ == old(out)@ + le_bytes(n as nat, x as nat),
{
    let ghost start = out@;
    let mut left = n;
    let mut v = x;
    assert(start + le_bytes(n as nat, x as nat) =~= out@ + le_bytes(left as nat, v as nat));
    while left > 0
        invariant
            start + le_bytes(n as nat, x as nat) == out@ + le_bytes(left as nat, v as nat),
        decreases left,
    {
        let ghost before = out@;
        let b = (v % 256) as u8;
        out.push(b);
        assert(before + le_bytes(left as nat, v as nat) =~= out@ + le_bytes(
            (left - 1) as nat,
            (v / 256) as nat,
        ));
        v = v / 256;
        left -= 1;
    }
    assert(out@ + le_bytes(0, v as nat) =~= out@);
}

/// Reads a number of `n` bytes.
pub open spec fn read_le(s: Seq<u8>, n: nat) -> Option<(nat, Seq<u8>)> {
    if s.len() < n {
        None
    } else {
        Some((le_value(s.take(n as int)), s.skip(n as int)))
    }
}

/// The number in the `n` bytes of `input` at `at`.
pub fn take_le(input: &Vec<u8>, at: usize, n: usize) -> (r: Option<(u128, usize)>)
    requires
        at <= input@.len(),
        n <= 16,
    ensures
        match r {
            Some((x, k)) => read_le(input@.skip(at as int), n as nat) == Some(
                (x as nat, input@.skip(k as int)),
            ) && k == at + n && k <= input@.len() && x < pow256(n as nat),
            None => read_le(input@.skip(at as int), n as nat) is None,
        },
{
    let ghost s = input@.skip(at as int);
    if input.len() - at < n {
        return None;
    }
    let ghost t = s.take(n as int);
    let mut v: u128 = 0;
    let mut i = n;
    assert(t.skip(n as int) =~= Seq::<u8>::empty());
    while i > 0
        invariant
            i <= n <= 16,
            at + n <= input.len(),
            s == input@.skip(at as int),
            t == s.take(n as int),
            v == le_value(t.skip(i as int)),
        decreases i,
    {
        let b = input[at + (i - 1)];
        proof {
            let u = t.skip(i - 1);
            assert(u.drop_first() =~= t.skip(i as int));
            assert(u[0] == b);
            lemma_le_bound(u);
            lemma_pow_grows(u.len(), 16);
            pow256_values();
        }
        v = v * 256 + b as u128;
        i -= 1;
    }
    proof {
        assert(t.skip(0) =~= t);
        lemma_le_bound(t);
        assert(s.skip(n as int) =~= input@.skip(at + n));
    }
    Some((v, at + n))
}

/// What follows a number of `n` bytes is left over.
pub proof fn read_le_round_trip(n: nat, x: nat, rest: Seq<u8>)
    requires
        x < pow256(n),
    ensures
        read_le(le_bytes(n, x) + rest, n) == Some((x, rest)),
{
    le_round_trip(n, x);
    let s = le_bytes(n, x) + rest;
    assert(s.take(n as int) =~= le_bytes(n, x));
    assert(s.skip(n as int) =~= rest);
}

/// The length of a 32-bit number.
pub proof fn le_bytes_len(n: nat, x: nat)
    ensures
        le_bytes(n, x).len() == n,
{
    lemma_le_len(n, x);
}

// ---- Values ----

/// A value that can be written and read back.
pub trait Codec: View + Sized {
    /// The bytes of a value.
    spec fn bytes_of(v: Self::V) -> Seq<u8>;

    /// The value at the start of `s`, with what is left.
    spec fn read(s: Seq<u8>) -> Option<(Self::V, Seq<u8>)>;

    /// Whether the value is within the limits of the format: lengths fit in 32 bits.
    spec fn encodable(v: Self::V) -> bool;

    /// What the value itself must satisfy to be written.
    spec fn valid(&self) -> bool;

    /// What was written reads back, and nothing is written as no bytes.
    proof fn round_trip(v: Self::V, rest: Seq<u8>)
        requires
            Self::encodable(v),
        ensures
            Self::read(Self::bytes_of(v) + rest) == Some((v, rest)),
            Self::bytes_of(v).len() > 0,
    ;

    /// Appends the bytes of the value.
    fn put(&self, out: &mut Vec<u8>)
        requires
            self.valid(),
        ensures
            final(out)@ == old(out)@ + Self::bytes_of(self@),
    ;

    /// Reads a value at `at`; gives the place behind it.
    fn take(input: &Vec<u8>, at: usize) -> (r: Option<(Self, usize)>)
        requires
            at <= input@.len(),
        ensures
            match r {
                Some((x, k)) => Self::read(input@.skip(at as int)) == Some((x@, input@.skip(k as int)))
                    && at <= k <= input@.len() && x.valid(),
                None => Self::read(input@.skip(at as int)) is None,
            },
    ;
}

/// The models of values.
pub open spec fn views<T: View>(v: Seq<T>) -> Seq<T::V> {
    Seq::new(v.len(), |i: int| v[i]@)
}

/// The bytes of the first `n` items.
pub open spec fn items_bytes<T: Codec>(v: Seq<T::V>, n: nat) -> Seq<u8>
    decreases n,
{
    if n == 0 {
        Seq::empty()
    } else {
        items_bytes::<T>(v, (n - 1) as nat) + T::bytes_of(v[n - 1])
    }
}

/// The bytes of a list: its length, then its items.
pub open spec fn list_bytes<T: Codec>(v: Seq<T::V>) -> Seq<u8> {
    le_bytes(4, v.len()) + items_bytes::<T>(v, v.len())
}

/// Reads `n` more items after `acc`.
pub open spec fn read_items<T: Codec>(s: Seq<u8>, n: nat, acc: Seq<T::V>) -> Option<
    (Seq<T::V>, Seq<u8>),
>
    decreases n,
{
    if n == 0 {
        Some((acc, s))
    } else {
        match T::read(s) {
            Some((x, rest)) => read_items::<T>(rest, (n - 1) as nat, acc.push(x)),
            None => None,
        }
    }
}

/// Reads the length of a list. One that exceeds the number of bytes left cannot be right.
pub open spec fn read_count(s: Seq<u8>) -> Option<(nat, Seq<u8>)> {
    match read_le(s, 4) {
        Some((n, rest)) => if n > rest.len() { None } else { Some((n, rest)) },
        None => None,
    }
}

/// Reads a list.
pub open spec fn read_list<T: Codec>(s: Seq<u8>) -> Option<(Seq<T::V>, Seq<u8>)> {
    match read_count(s) {
        Some((n, rest)) => read_items::<T>(rest, n, Seq::empty()),
        None => None,
    }
}

/// Whether a list is within the limits of the format.
pub open spec fn list_encodable<T: Codec>(v: Seq<T::V>) -> bool {
    v.len() < pow256(4) && forall|i: int| 0 <= i < v.len() ==> T::encodable(#[trigger] v[i])
}

proof fn lemma_items_split<T: Codec>(v: Seq<T::V>, k: nat, n: nat)
    requires
        k <= n <= v.len(),
    ensures
        items_bytes::<T>(v, n) == items_bytes::<T>(v, k) + items_bytes::<T>(
            v.skip(k as int),
            (n - k) as nat,
        ),
    decreases n - k,
{
    if k < n {
        lemma_items_split::<T>(v, k, (n - 1) as nat);
        assert(v.skip(k as int)[n - k - 1] == v[n - 1]);
        assert(items_bytes::<T>(v, n) =~= items_bytes::<T>(v, k) + items_bytes::<T>(
            v.skip(k as int),
            (n - k) as nat,
        ));
    } else {
        assert(items_bytes::<T>(v, n) =~= items_bytes::<T>(v, k) + Seq::<u8>::empty());
    }
}

proof fn lemma_read_items<T: Codec>(v: Seq<T::V>, rest: Seq<u8>, acc: Seq<T::V>)
    requires
        forall|i: int| 0 <= i < v.len() ==> T::encodable(#[trigger] v[i]),
    ensures
        read_items::<T>(items_bytes::<T>(v, v.len()) + rest, v.len(), acc) == Some((acc + v, rest)),
        items_bytes::<T>(v, v.len()).len() >= v.len(),
    decreases v.len(),
{
    if v.len() == 0 {
        assert(items_bytes::<T>(v, 0) + rest =~= rest);
        assert(acc + v =~= acc);
    } else {
        let tail = v.skip(1);
        let n = v.len();
        lemma_items_split::<T>(v, 1, n);
        let tail_bytes = items_bytes::<T>(tail, tail.len());
        assert(items_bytes::<T>(v, 1) =~= T::bytes_of(v[0])) by {
            assert(items_bytes::<T>(v, 0) =~= Seq::<u8>::empty());
        }
        let s = items_bytes::<T>(v, n) + rest;
        assert(s =~= T::bytes_of(v[0]) + (tail_bytes + rest));
        T::round_trip(v[0], tail_bytes + rest);
        assert forall|i: int| 0 <= i < tail.len() implies T::encodable(#[trigger] tail[i]) by {
            assert(tail[i] == v[i + 1]);
        }
        lemma_read_items::<T>(tail, rest, acc.push(v[0]));
        assert(acc.push(v[0]) + tail =~= acc + v);
    }
}

/// A list that was written reads back.
pub proof fn list_round_trip<T: Codec>(v: Seq<T::V>, rest: Seq<u8>)
    requires
        list_encodable::<T>(v),
    ensures
        read_list::<T>(list_bytes::<T>(v) + rest) == Some((v, rest)),
        list_bytes::<T>(v).len() >= 4,
{
    let body = items_bytes::<T>(v, v.len());
    lemma_read_items::<T>(v, rest, Seq::empty());
    assert(list_bytes::<T>(v) + rest =~= le_bytes(4, v.len()) + (body + rest));
    read_le_round_trip(4, v.len(), body + rest);
    lemma_le_len(4, v.len());
    assert(Seq::<T::V>::empty() + v =~= v);
}

/// Appends a list.
pub fn put_list<T: Codec>(v: &Vec<T>, out: &mut Vec<u8>)
    requires
        forall|i: int| 0 <= i < v@.len() ==> (#[trigger] v@[i]).valid(),
    ensures
        final(out)@ == old(out)@ + list_bytes::<T>(views(v@)),
{
    let ghost start = out@;
    let ghost vv = views(v@);
    put_le(out, 4, v.len() as u128);
    let ghost head = out@;
    assert(head + items_bytes::<T>(vv, 0) =~= head);
    let mut i: usize = 0;
    while i < v.len()
        invariant
            i <= v@.len(),
            vv == views(v@),
            forall|i: int| 0 <= i < v@.len() ==> (#[trigger] v@[i]).valid(),
            out@ == head + items_bytes::<T>(vv, i as nat),
        decreases v@.len() - i,
    {
        let ghost before = out@;
        v[i].put(out);
        assert(vv[i as int] == v@[i as int]@);
        i += 1;
        assert(out@ =~= head + items_bytes::<T>(vv, i as nat));
    }
    assert(out@ =~= start + list_bytes::<T>(vv));
}

/// Reads the length of a list.
pub fn take_count(input: &Vec<u8>, at: usize) -> (r: Option<(usize, usize)>)
    requires
        at <= input@.len(),
    ensures
        match r {
            Some((n, k)) => read_count(input@.skip(at as int)) == Some((n as nat, input@.skip(k as int)))
                && at <= k <= input@.len() && n <= input@.len() - k,
            None => read_count(input@.skip(at as int)) is None,
        },
{
    match take_le(input, at, 4) {
        Some((n, k)) => {
            if n > (input.len() - k) as u128 {
                None
            } else {
                Some((n as usize, k))
            }
        },
        None => None,
    }
}

/// Reads a list.
pub fn take_list<T: Codec>(input: &Vec<u8>, at: usize) -> (r: Option<(Vec<T>, usize)>)
    requires
        at <= input@.len(),
    ensures
        match r {
            Some((v, k)) => read_list::<T>(input@.skip(at as int)) == Some(
                (views(v@), input@.skip(k as int)),
            ) && at <= k <= input@.len() && forall|i: int|
                0 <= i < v@.len() ==> (#[trigger] v@[i]).valid(),
            None => read_list::<T>(input@.skip(at as int)) is None,
        },
{
    let (n, k0) = match take_count(input, at) {
        Some(x) => x,
        None => {
            return None;
        },
    };
    let ghost whole = read_list::<T>(input@.skip(at as int));
    let mut out: Vec<T> = Vec::new();
    let mut k = k0;
    let mut left = n;
    assert(views(out@) =~= Seq::<T::V>::empty());
    while left > 0
        invariant
            at <= k <= input@.len(),
            whole == read_items::<T>(input@.skip(k as int), left as nat, views(out@)),
            forall|i: int| 0 <= i < out@.len() ==> (#[trigger] out@[i]).valid(),
            whole == read_list::<T>(input@.skip(at as int)),
        decreases left,
    {
        match T::take(input, k) {
            Some((x, next)) => {
                let ghost before = out@;
                let ghost xv = x@;
                out.push(x);
                assert(views(out@) =~= views(before).push(xv));
                k = next;
            },
            None => {
                return None;
            },
        }
        left -= 1;
    }
    Some((out, k))
}

// ---- Bytes and numbers ----

/// A value that is one of few, by its code.
pub open spec fn read_code(s: Seq<u8>) -> Option<(u8, Seq<u8>)> {
    if s.len() == 0 { None } else { Some((s[0], s.skip(1))) }
}

/// Reads a code.
pub fn take_u8(input: &Vec<u8>, at: usize) -> (r: Option<(u8, usize)>)
    requires
        at <= input@.len(),
    ensures
        match r {
            Some((b, k)) => read_code(input@.skip(at as int)) == Some((b, input@.skip(k as int))) && k == at
                + 1 && k <= input@.len(),
            None => read_code(input@.skip(at as int)) is None,
        },
{
    if at < input.len() {
        assert(input@.skip(at as int).skip(1) =~= input@.skip(at + 1));
        Some((input[at], at + 1))
    } else {
        None
    }
}

/// A code that was written reads back.
pub proof fn code_round_trip(b: u8, rest: Seq<u8>)
    ensures
        read_code(seq![b] + rest) == Some((b, rest)),
{
    assert((seq![b] + rest).skip(1) =~= rest);
}

impl Codec for u32 {
    open spec fn bytes_of(v: u32) -> Seq<u8> {
        le_bytes(4, v as nat)
    }

    open spec fn read(s: Seq<u8>) -> Option<(u32, Seq<u8>)> {
        match read_le(s, 4) {
            Some((x, rest)) => Some((x as u32, rest)),
            None => None,
        }
    }

    open spec fn encodable(v: u32) -> bool {
        true
    }

    open spec fn valid(&self) -> bool {
        true
    }

    proof fn round_trip(v: u32, rest: Seq<u8>) {
        pow256_values();
        read_le_round_trip(4, v as nat, rest);
        lemma_le_len(4, v as nat);
    }

    fn put(&self, out: &mut Vec<u8>) {
        put_le(out, 4, *self as u128);
    }

    fn take(input: &Vec<u8>, at: usize) -> (r: Option<(u32, usize)>) {
        proof {
            pow256_values();
        }
        match take_le(input, at, 4) {
            Some((x, k)) => Some((x as u32, k)),
            None => None,
        }
    }
}

impl Codec for u128 {
    open spec fn bytes_of(v: u128) -> Seq<u8> {
        le_bytes(16, v as nat)
    }

    open spec fn read(s: Seq<u8>) -> Option<(u128, Seq<u8>)> {
        match read_le(s, 16) {
            Some((x, rest)) => Some((x as u128, rest)),
            None => None,
        }
    }

    open spec fn encodable(v: u128) -> bool {
        true
    }

    open spec fn valid(&self) -> bool {
        true
    }

    proof fn round_trip(v: u128, rest: Seq<u8>) {
        pow256_values();
        read_le_round_trip(16, v as nat, rest);
        lemma_le_len(16, v as nat);
    }

    fn put(&self, out: &mut Vec<u8>) {
        put_le(out, 16, *self);
    }

    fn take(input: &Vec<u8>, at: usize) -> (r: Option<(u128, usize)>) {
        match take_le(input, at, 16) {
            Some((x, k)) => Some((x, k)),
            None => None,
        }
    }
}

// ---- Texts ----

/// `String::from_utf8` accepts exactly the valid UTF-8 sequences and gives the text that they
/// encode.
#[verifier::external_body]
fn text_from_utf8(v: Vec<u8>) -> (r: Option<String>)
    ensures
        match r {
            Some(s) => valid_utf8(v@) && s@ == decode_utf8(v@),
            None => !valid_utf8(v@),
        },
{
    String::from_utf8(v).ok()
}

/// Appends bytes `from..to` of `input`.
fn copy_bytes(input: &Vec<u8>, from: usize, to: usize) -> (r: Vec<u8>)
    requires
        from <= to <= input@.len(),
    ensures
        r@ == input@.subrange(from as int, to as int),
{
    let mut out: Vec<u8> = Vec::new();
    let mut i = from;
    assert(input@.subrange(from as int, from as int) =~= Seq::<u8>::empty());
    while i < to
        invariant
            from <= i <= to <= input@.len(),
            out@ == input@.subrange(from as int, i as int),
        decreases to - i,
    {
        out.push(input[i]);
        i += 1;
        assert(input@.subrange(from as int, i as int) =~= input@.subrange(from as int, i - 1).push(
            input@[i - 1],
        ));
    }
    out
}

/// Appends the bytes of a text.
pub fn put_utf8(s: &str, out: &mut Vec<u8>)
    ensures
        final(out)@ == old(out)@ + encode_utf8(s@),
{
    let b = s.as_bytes();
    let ghost start = out@;
    let mut i: usize = 0;
    assert(b@.take(0) =~= Seq::<u8>::empty());
    assert(start + b@.take(0) =~= start);
    while i < b.len()
        invariant
            i <= b@.len(),
            out@ == start + b@.take(i as int),
        decreases b@.len() - i,
    {
        out.push(b[i]);
        i += 1;
        assert(start + b@.take(i as int) =~= (start + b@.take(i - 1)).push(b@[i - 1]));
    }
    assert(b@.take(i as int) =~= b@);
}

/// The bytes of a text: its length in bytes, then its UTF-8 encoding.
pub open spec fn text_bytes(v: Seq<char>) -> Seq<u8> {
    le_bytes(4, encode_utf8(v).len()) + encode_utf8(v)
}

/// Appends a text.
pub fn put_str(out: &mut Vec<u8>, s: &str)
    ensures
        final(out)@ == old(out)@ + text_bytes(s@),
{
    let ghost start = out@;
    let b = s.as_bytes();
    put_le(out, 4, b.len() as u128);
    put_utf8(s, out);
    assert(out@ =~= start + text_bytes(s@));
}

impl Codec for String {
    open spec fn bytes_of(v: Seq<char>) -> Seq<u8> {
        text_bytes(v)
    }

    open spec fn read(s: Seq<u8>) -> Option<(Seq<char>, Seq<u8>)> {
        match read_le(s, 4) {
            Some((n, rest)) => if rest.len() < n || !valid_utf8(rest.take(n as int)) {
                None
            } else {
                Some((decode_utf8(rest.take(n as int)), rest.skip(n as int)))
            },
            None => None,
        }
    }

    open spec fn encodable(v: Seq<char>) -> bool {
        encode_utf8(v).len() < pow256(4)
    }

    open spec fn valid(&self) -> bool {
        true
    }

    proof fn round_trip(v: Seq<char>, rest: Seq<u8>) {
        let b = encode_utf8(v);
        vstd::utf8::encode_utf8_valid_utf8(v);
        vstd::utf8::encode_utf8_decode_utf8(v);
        assert(text_bytes(v) + rest =~= le_bytes(4, b.len()) + (b + rest));
        read_le_round_trip(4, b.len(), b + rest);
        lemma_le_len(4, b.len());
        assert((b + rest).take(b.len() as int) =~= b);
        assert((b + rest).skip(b.len() as int) =~= rest);
    }

    fn put(&self, out: &mut Vec<u8>) {
        put_str(out, self.as_str());
    }

    fn take(input: &Vec<u8>, at: usize) -> (r: Option<(String, usize)>) {
        let (n, k) = match take_le(input, at, 4) {
            Some(x) => x,
            None => {
                return None;
            },
        };
        let ghost rest = input@.skip(k as int);
        if n > (input.len() - k) as u128 {
            return None;
        }
        let end = k + n as usize;
        let b = copy_bytes(input, k, end);
        assert(b@ =~= rest.take(n as int));
        assert(rest.skip(n as int) =~= input@.skip(end as int));
        match text_from_utf8(b) {
            Some(s) => Some((s, end)),
            None => None,
        }
    }
}

// ---- Choices ----

/// A value that is one of few, known by its code.
pub trait Coded: View<V = Self> + Copy + Sized {
    /// The code of a value.
    spec fn code_of(v: Self) -> u8;

    /// The value with a code.
    spec fn of_code(b: u8) -> Option<Self>;

    /// A code stands for its value.
    proof fn coded(v: Self)
        ensures
            Self::of_code(Self::code_of(v)) == Some(v),
    ;

    /// A value's model is the value.
    proof fn view_self(v: Self)
        ensures
            v@ == v,
    ;

    /// The code of the value.
    fn code(&self) -> (r: u8)
        ensures
            r == Self::code_of(*self),
    ;

    /// The value with a code.
    fn from_code(b: u8) -> (r: Option<Self>)
        ensures
            r == Self::of_code(b),
    ;
}

impl<T: Coded> Codec for T {
    open spec fn bytes_of(v: T) -> Seq<u8> {
        seq![T::code_of(v)]
    }

    open spec fn read(s: Seq<u8>) -> Option<(T, Seq<u8>)> {
        match read_code(s) {
            Some((b, rest)) => match T::of_code(b) {
                Some(v) => Some((v, rest)),
                None => None,
            },
            None => None,
        }
    }

    open spec fn encodable(v: T) -> bool {
        true
    }

    open spec fn valid(&self) -> bool {
        true
    }

    proof fn round_trip(v: T, rest: Seq<u8>) {
        code_round_trip(T::code_of(v), rest);
        T::coded(v);
    }

    fn put(&self, out: &mut Vec<u8>) {
        let ghost before = out@;
        out.push(self.code());
        proof {
            T::view_self(*self);
        }
        assert(out@ =~= before + seq![T::code_of(*self)]);
    }

    fn take(input: &Vec<u8>, at: usize) -> (r: Option<(T, usize)>) {
        match take_u8(input, at) {
            Some((b, k)) => match T::from_code(b) {
                Some(v) => {
                    proof {
                        T::view_self(v);
                    }
                    Some((v, k))
                },
                None => None,
            },
            None => None,
        }
    }
}

// ---- Pairs ----

impl<A: Codec, B: Codec> Codec for (A, B) {
    open spec fn bytes_of(v: (A::V, B::V)) -> Seq<u8> {
        A::bytes_of(v.0) + B::bytes_of(v.1)
    }

    open spec fn read(s: Seq<u8>) -> Option<((A::V, B::V), Seq<u8>)> {
        match A::read(s) {
            Some((a, rest)) => match B::read(rest) {
                Some((b, rest)) => Some(((a, b), rest)),
                None => None,
            },
            None => None,
        }
    }

    open spec fn encodable(v: (A::V, B::V)) -> bool {
        A::encodable(v.0) && B::encodable(v.1)
    }

    open spec fn valid(&self) -> bool {
        self.0.valid() && self.1.valid()
    }

    proof fn round_trip(v: (A::V, B::V), rest: Seq<u8>) {
        A::round_trip(v.0, B::bytes_of(v.1) + rest);
        B::round_trip(v.1, rest);
        assert(Self::bytes_of(v) + rest =~= A::bytes_of(v.0) + (B::bytes_of(v.1) + rest));
    }

    fn put(&self, out: &mut Vec<u8>) {
        let ghost before = out@;
        self.0.put(out);
        self.1.put(out);
        assert(out@ =~= before + Self::bytes_of(self@));
    }

    fn take(input: &Vec<u8>, at: usize) -> (r: Option<((A, B), usize)>) {
        match A::take(input, at) {
            Some((a, k)) => match B::take(input, k) {
                Some((b, k)) => Some(((a, b), k)),
                None => None,
            },
            None => None,
        }
    }
}

// ---- Lists and what may be missing ----

/// A list, modelled by the models of its items.
pub struct Items<T>(pub Vec<T>);

impl<T: View> View for Items<T> {
    type V = Seq<T::V>;

    open spec fn view(&self) -> Seq<T::V> {
        views(self.0@)
    }
}

impl<T: Codec> Codec for Items<T> {
    open spec fn bytes_of(v: Seq<T::V>) -> Seq<u8> {
        list_bytes::<T>(v)
    }

    open spec fn read(s: Seq<u8>) -> Option<(Seq<T::V>, Seq<u8>)> {
        read_list::<T>(s)
    }

    open spec fn encodable(v: Seq<T::V>) -> bool {
        list_encodable::<T>(v)
    }

    open spec fn valid(&self) -> bool {
        forall|i: int| 0 <= i < self.0@.len() ==> (#[trigger] self.0@[i]).valid()
    }

    proof fn round_trip(v: Seq<T::V>, rest: Seq<u8>) {
        list_round_trip::<T>(v, rest);
    }

    fn put(&self, out: &mut Vec<u8>) {
        put_list(&self.0, out);
    }

    fn take(input: &Vec<u8>, at: usize) -> (r: Option<(Items<T>, usize)>) {
        match take_list::<T>(input, at) {
            Some((v, k)) => Some((Items(v), k)),
            None => None,
        }
    }
}

/// What may be missing, modelled by the model of what is there.
pub struct Maybe<T>(pub Option<T>);

/// The model of what may be missing.
pub open spec fn opt_view<T: View>(o: Option<T>) -> Option<T::V> {
    match o {
        Some(x) => Some(x@),
        None => None,
    }
}

impl<T: View> View for Maybe<T> {
    type V = Option<T::V>;

    open spec fn view(&self) -> Option<T::V> {
        opt_view(self.0)
    }
}

/// The bytes of what may be missing: a code, then what is there.
pub open spec fn opt_bytes<T: Codec>(v: Option<T::V>) -> Seq<u8> {
    match v {
        Some(x) => seq![1u8] + T::bytes_of(x),
        None => seq![0u8],
    }
}

/// Appends what may be missing.
pub fn put_opt<T: Codec>(v: &Option<T>, out: &mut Vec<u8>)
    requires
        v matches Some(x) ==> x.valid(),
    ensures
        final(out)@ == old(out)@ + opt_bytes::<T>(opt_view(*v)),
{
    let ghost before = out@;
    match v {
        Some(x) => {
            out.push(1);
            x.put(out);
            assert(out@ =~= before + opt_bytes::<T>(Some(x@)));
        },
        None => {
            out.push(0);
            assert(out@ =~= before + opt_bytes::<T>(None));
        },
    }
}

impl<T: Codec> Codec for Maybe<T> {
    open spec fn bytes_of(v: Option<T::V>) -> Seq<u8> {
        opt_bytes::<T>(v)
    }

    open spec fn read(s: Seq<u8>) -> Option<(Option<T::V>, Seq<u8>)> {
        match read_code(s) {
            Some((b, rest)) => if b == 0 {
                Some((None, rest))
            } else if b == 1 {
                match T::read(rest) {
                    Some((x, rest)) => Some((Some(x), rest)),
                    None => None,
                }
            } else {
                None
            },
            None => None,
        }
    }

    open spec fn encodable(v: Option<T::V>) -> bool {
        v matches Some(x) ==> T::encodable(x)
    }

    open spec fn valid(&self) -> bool {
        self.0 matches Some(x) ==> x.valid()
    }

    proof fn round_trip(v: Option<T::V>, rest: Seq<u8>) {
        match v {
            Some(x) => {
                T::round_trip(x, rest);
                assert(opt_bytes::<T>(v) + rest =~= seq![1u8] + (T::bytes_of(x) + rest));
                code_round_trip(1, T::bytes_of(x) + rest);
            },
            None => {
                code_round_trip(0, rest);
            },
        }
    }

    fn put(&self, out: &mut Vec<u8>) {
        put_opt(&self.0, out);
    }

    fn take(input: &Vec<u8>, at: usize) -> (r: Option<(Maybe<T>, usize)>) {
        match take_u8(input, at) {
            Some((b, k)) => {
                if b == 0 {
                    Some((Maybe(None), k))
                } else if b == 1 {
                    match T::take(input, k) {
                        Some((x, k)) => Some((Maybe(Some(x)), k)),
                        None => None,
                    }
                } else {
                    None
                }
            },
            None => None,
        }
    }
}

} // verus!
