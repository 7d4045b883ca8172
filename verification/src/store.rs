//! Where cached results lie: `<root>/<layer>/<hh>/<hex>`.

use vstd::prelude::*;
use crate::text::{chars_of, dec, push_dec};

verus! {

/// The digit for `d`, in lower case.
pub open spec fn hex_digit(d: int) -> char {
    if d == 0 {
        '0'
    } else if d == 1 {
        '1'
    } else if d == 2 {
        '2'
    } else if d == 3 {
        '3'
    } else if d == 4 {
        '4'
    } else if d == 5 {
        '5'
    } else if d == 6 {
        '6'
    } else if d == 7 {
        '7'
    } else if d == 8 {
        '8'
    } else if d == 9 {
        '9'
    } else if d == 10 {
        'a'
    } else if d == 11 {
        'b'
    } else if d == 12 {
        'c'
    } else if d == 13 {
        'd'
    } else if d == 14 {
        'e'
    } else {
        'f'
    }
}

fn hex_char(d: u8) -> (r: char)
    requires
        d < 16,
    ensures
        r == hex_digit(d as int),
{
    match d {
        0 => '0',
        1 => '1',
        2 => '2',
        3 => '3',
        4 => '4',
        5 => '5',
        6 => '6',
        7 => '7',
        8 => '8',
        9 => '9',
        10 => 'a',
        11 => 'b',
        12 => 'c',
        13 => 'd',
        14 => 'e',
        _ => 'f',
    }
}

/// The first `n` bytes as hexadecimal digits, two each.
pub open spec fn hex_of(key: Seq<u8>, n: nat) -> Seq<char>
    decreases n,
{
    if n == 0 {
        Seq::empty()
    } else {
        hex_of(key, (n - 1) as nat) + seq![
            hex_digit(key[n - 1] as int / 16),
            hex_digit(key[n - 1] as int % 16),
        ]
    }
}

/// The first `n` bytes of a key in hexadecimal.
fn hex(key: &[u8; 32], n: usize) -> (r: String)
    requires
        n <= 32,
    ensures
        r@ == hex_of(key@, n as nat),
{
    let mut out = "".to_string();
    proof {
        reveal_strlit("");
        assert(out@ =~= Seq::<char>::empty());
    }
    let mut i: usize = 0;
    while i < n
        invariant
            i <= n <= 32,
            key@.len() == 32,
            out@ == hex_of(key@, i as nat),
        decreases n - i,
    {
        let ghost before = out@;
        let b = key[i];
        out.push(hex_char(b / 16));
        out.push(hex_char(b % 16));
        i += 1;
        assert(out@ =~= hex_of(key@, i as nat));
    }
    out
}

proof fn lemma_hex_len(key: Seq<u8>, n: nat)
    ensures
        hex_of(key, n).len() == 2 * n,
    decreases n,
{
    if n > 0 {
        lemma_hex_len(key, (n - 1) as nat);
    }
}

proof fn lemma_hex_no_slash(key: Seq<u8>, n: nat)
    ensures
        !hex_of(key, n).contains('/'),
    decreases n,
{
    if n > 0 {
        lemma_hex_no_slash(key, (n - 1) as nat);
        let s = hex_of(key, n);
        let t = hex_of(key, (n - 1) as nat);
        assert forall|i: int| 0 <= i < s.len() implies s[i] != '/' by {
            if i < t.len() {
                assert(t[i] != '/');
            }
        }
    }
}

proof fn lemma_hex_injective(a: Seq<u8>, b: Seq<u8>, n: nat)
    requires
        n <= a.len(),
        n <= b.len(),
        hex_of(a, n) == hex_of(b, n),
    ensures
        a.take(n as int) == b.take(n as int),
    decreases n,
{
    if n > 0 {
        let m = (n - 1) as nat;
        lemma_hex_len(a, m);
        lemma_hex_len(b, m);
        let s = hex_of(a, n);
        let t = hex_of(b, n);
        assert(s.take(2 * m as int) =~= hex_of(a, m));
        assert(t.take(2 * m as int) =~= hex_of(b, m));
        lemma_hex_injective(a, b, m);
        assert(s[2 * m as int] == hex_digit(a[m as int] as int / 16));
        assert(t[2 * m as int] == hex_digit(b[m as int] as int / 16));
        assert(s[2 * m as int + 1] == hex_digit(a[m as int] as int % 16));
        assert(t[2 * m as int + 1] == hex_digit(b[m as int] as int % 16));
        assert(a[m as int] == b[m as int]);
        assert(a.take(n as int) =~= a.take(m as int).push(a[m as int]));
        assert(b.take(n as int) =~= b.take(m as int).push(b[m as int]));
    } else {
        assert(a.take(0) =~= b.take(0));
    }
}

/// The path of `part` in `base`. A path that starts at the root stands for itself.
pub open spec fn joined(base: Seq<char>, part: Seq<char>) -> Seq<char> {
    if part.len() > 0 && part[0] == '/' {
        part
    } else if base.len() == 0 || base.last() == '/' {
        base + part
    } else {
        base + seq!['/'] + part
    }
}

fn join(base: &str, part: &str) -> (r: String)
    ensures
        r@ == joined(base@, part@),
{
    let b = chars_of(base);
    let p = chars_of(part);
    if p.len() > 0 && p[0] == '/' {
        return part.to_string();
    }
    let mut out = base.to_string();
    if b.len() > 0 && b[b.len() - 1] != '/' {
        out.push('/');
        assert(out@ =~= base@ + seq!['/']);
    }
    out.append(part);
    assert(out@ =~= joined(base@, part@));
    out
}

/// The path of an entry.
pub open spec fn entry_path_of(root: Seq<char>, layer: Seq<char>, key: Seq<u8>) -> Seq<char> {
    let h = hex_of(key, 32);
    joined(joined(joined(root, layer), h.take(2)), h)
}

/// A directory of results, by layer and key.
#[derive(Debug, Clone, PartialEq, Eq)]
pub struct Store {
    pub root: String,
}

/// A file to be written: the bytes go to `temp` first, which then replaces `dest`, while
/// `lock` is held.
#[derive(Debug, PartialEq, Eq)]
pub struct Write {
    /// The directory that must exist.
    pub dir: String,
    pub dest: String,
    pub lock: String,
    pub temp: String,
    pub bytes: Vec<u8>,
}

/// Whether `w` writes the entry at `key` in `layer`.
pub open spec fn stores(
    w: Write,
    root: Seq<char>,
    layer: Seq<char>,
    key: Seq<u8>,
    owner: u32,
) -> bool {
    &&& w.dest@ == entry_path_of(root, layer, key)
    &&& w.dir@ == joined(joined(root, layer), hex_of(key, 1))
    &&& w.lock@ == joined(root, layer + ".lock"@)
    &&& w.temp@ == joined(
        joined(root, layer),
        "tmp-"@ + hex_of(key, 4) + "-"@ + dec(owner as nat),
    )
}

impl Store {
    /// A store at `root`. Nothing is read or created.
    pub fn open(root: String) -> (r: Store)
        ensures
            r.root@ == root@,
    {
        Store { root }
    }

    /// The path of the entry at `key` in `layer`.
    pub fn entry_path(&self, layer: &str, key: &[u8; 32]) -> (r: String)
        ensures
            r@ == entry_path_of(self.root@, layer@, key@),
    {
        let h = hex(key, 32);
        let hh = hex(key, 1);
        proof {
            lemma_hex_len(key@, 32);
            lemma_hex_head(key@, 32);
        }
        let dir = join(join(self.root.as_str(), layer).as_str(), hh.as_str());
        join(dir.as_str(), h.as_str())
    }

    /// What is to be done to store `value` at `key` in `layer`. `owner` tells the temporary
    /// file from those of other writers.
    pub fn put(&self, layer: &str, key: &[u8; 32], value: Vec<u8>, owner: u32) -> (r: Write)
        ensures
            stores(r, self.root@, layer@, key@, owner),
            r.bytes@ == value@,
    {
        let layer_dir = join(self.root.as_str(), layer);
        let dir = join(layer_dir.as_str(), hex(key, 1).as_str());
        let dest = self.entry_path(layer, key);
        let mut lock_name = layer.to_string();
        lock_name.append(".lock");
        let lock = join(self.root.as_str(), lock_name.as_str());
        let mut name = "tmp-".to_string();
        name.append(hex(key, 4).as_str());
        name.append("-");
        push_dec(&mut name, owner as u128);
        let temp = join(layer_dir.as_str(), name.as_str());
        Write { dir, dest, lock, temp, bytes: value }
    }
}

proof fn lemma_hex_head(key: Seq<u8>, n: nat)
    requires
        n >= 1,
    ensures
        hex_of(key, n).take(2) == hex_of(key, 1),
        hex_of(key, n).len() == 2 * n,
    decreases n,
{
    lemma_hex_len(key, n);
    if n > 1 {
        lemma_hex_head(key, (n - 1) as nat);
        assert(hex_of(key, n).take(2) =~= hex_of(key, (n - 1) as nat).take(2));
    } else {
        assert(hex_of(key, 1).take(2) =~= hex_of(key, 1));
    }
}

/// Whether a layer's name is the name of a directory.
pub open spec fn plain_name(layer: Seq<char>) -> bool {
    layer.len() > 0 && !layer.contains('/')
}

proof fn lemma_joined_tail(root: Seq<char>, layer: Seq<char>, key: Seq<u8>)
    requires
        plain_name(layer),
        key.len() == 32,
    ensures
        ({
            let h = hex_of(key, 32);
            let base = if root.len() == 0 || root.last() == '/' { root } else { root + seq!['/'] };
            entry_path_of(root, layer, key) == base + (layer + (seq!['/'] + h.take(2) + seq!['/'] + h))
        }),
        hex_of(key, 32).len() == 64,
{
    let h = hex_of(key, 32);
    lemma_hex_len(key, 32);
    lemma_hex_no_slash(key, 32);
    assert(layer.contains(layer[0]));
    assert(h.contains(h[0]));
    let base = if root.len() == 0 || root.last() == '/' { root } else { root + seq!['/'] };
    let a = joined(root, layer);
    assert(a =~= base + layer);
    assert(a.last() == layer.last());
    assert(layer.contains(layer.last()));
    let hh = h.take(2);
    assert(hh[0] == h[0]);
    let b = joined(a, hh);
    assert(b =~= base + (layer + (seq!['/'] + hh)));
    assert(b.last() == h[1]);
    assert(h.contains(h[1]));
    assert(joined(b, h) =~= base + (layer + (seq!['/'] + hh + seq!['/'] + h)));
}

/// No two entries of a store share a path: neither those of different layers nor those of
/// different keys.
pub proof fn entry_paths_differ(
    root: Seq<char>,
    la: Seq<char>,
    ka: Seq<u8>,
    lb: Seq<char>,
    kb: Seq<u8>,
)
    requires
        plain_name(la),
        plain_name(lb),
        ka.len() == 32,
        kb.len() == 32,
        entry_path_of(root, la, ka) == entry_path_of(root, lb, kb),
    ensures
        la == lb,
        ka == kb,
{
    lemma_joined_tail(root, la, ka);
    lemma_joined_tail(root, lb, kb);
    let ha = hex_of(ka, 32);
    let hb = hex_of(kb, 32);
    let base = if root.len() == 0 || root.last() == '/' { root } else { root + seq!['/'] };
    let ta = seq!['/'] + ha.take(2) + seq!['/'] + ha;
    let tb = seq!['/'] + hb.take(2) + seq!['/'] + hb;
    let p = base + (la + ta);
    let q = base + (lb + tb);
    assert(ta.len() == 68 && tb.len() == 68);
    assert(p == q);
    assert(p.len() == base.len() + la.len() + 68);
    assert(q.len() == base.len() + lb.len() + 68);
    assert(la.len() == lb.len());
    let n = base.len() as int;
    assert(p.subrange(n, n + la.len()) =~= la);
    assert(q.subrange(n, n + lb.len()) =~= lb);
    assert(p.skip(n + la.len() + 4) =~= ha);
    assert(q.skip(n + lb.len() + 4) =~= hb);
    lemma_hex_injective(ka, kb, 32);
    assert(ka.take(32) =~= ka);
    assert(kb.take(32) =~= kb);
}

} // verus!
