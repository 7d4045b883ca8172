use std::collections::BTreeMap;

use goverify::checker::{Finding, Severity, TraceStep};
use goverify::digest::digest;
use goverify::effects::Effects;
use goverify::ir::{FuncDecl, FuncId, Pos, Program, Sccs, TypeTable};
use goverify::query_cache::{decode, encode, query_key, CachedOutcome, QueryCache, QueryKeyParts};
use goverify::scc_cache::{
    decode_entry_bytes, encode_entry, CacheConfigKey, MemberEntry, SccCache, SccEntry, SolverLimits,
};
use goverify::store::{Store, Write};
use goverify::summary::{Clause, Formula, Provenance, Summary};
use goverify::term::{ptr_is_nil, ptr_sort, BvBinOp, BvCmpOp, Sort, Term};
use goverify::term_codec::{decode_term, encode_term, MAX_TERM_DEPTH};

/// A disk of files by path.
#[derive(Default)]
struct Disk {
    files: BTreeMap<String, Vec<u8>>,
}

impl Disk {
    fn perform(&mut self, w: Write) {
        assert!(w.dest.starts_with(&w.dir));
        self.files.insert(w.temp.clone(), w.bytes);
        let bytes = self.files.remove(&w.temp).unwrap();
        self.files.insert(w.dest, bytes);
    }

    fn read(&self, path: &str) -> Option<Vec<u8>> {
        self.files.get(path).cloned()
    }
}

fn hex(key: &[u8; 32]) -> String {
    key.iter().map(|b| format!("{b:02x}")).collect()
}

// ---- Digests ----

#[test]
fn digests_are_those_of_blake3() {
    // The test vectors of BLAKE3 for no input and for the bytes 0, 1, 2.
    assert_eq!(
        hex(&digest(&vec![])),
        "af1349b9f5f9a1a6a0404dea36dcc9499bcb25c9adc112b7cc9a93cae41f3262"
    );
    assert_eq!(
        hex(&digest(&vec![0, 1, 2])),
        "e1be4d7a8ab5560aa4199eea339849ba8e293d55ca0a81006726d184519e647f"
    );
    let bytes: Vec<u8> = (0..1000).map(|i| (i % 251) as u8).collect();
    assert_eq!(digest(&bytes), *blake3::hash(&bytes).as_bytes());
}

// ---- Paths ----

#[test]
fn put_then_get_round_trips() {
    let mut disk = Disk::default();
    let s = Store::open("/c".to_string());
    let key = [7u8; 32];
    disk.perform(s.put("query", &key, b"hello".to_vec(), 1));
    assert_eq!(disk.read(&s.entry_path("query", &key)), Some(b"hello".to_vec()));
}

#[test]
fn missing_key_is_none() {
    let disk = Disk::default();
    let s = Store::open("/c".to_string());
    assert_eq!(disk.read(&s.entry_path("query", &[0u8; 32])), None);
}

#[test]
fn layers_are_disjoint() {
    let mut disk = Disk::default();
    let s = Store::open("/c".to_string());
    let key = [1u8; 32];
    disk.perform(s.put("query", &key, b"q".to_vec(), 1));
    assert_eq!(disk.read(&s.entry_path("summary", &key)), None);
}

#[test]
fn an_entry_lies_under_the_head_of_its_key() {
    let mut key = [0u8; 32];
    key[0] = 0xab;
    key[31] = 0x01;
    let s = Store::open("/c".to_string());
    let path = s.entry_path("query", &key);
    assert_eq!(path, format!("/c/query/ab/{}", hex(&key)));
    let a = s.put("query", &key, vec![1], 1);
    let b = s.put("query", &key, vec![2], 2);
    assert_eq!(a.dest, path);
    assert_eq!(a.dir, "/c/query/ab");
    assert_eq!(a.lock, b.lock, "writers of one layer wait for each other");
    assert_ne!(a.temp, b.temp, "and have files of their own meanwhile");
    assert_ne!(a.temp, a.dest);
}

// ---- Answers ----

fn parts(c: &str, id: &str) -> QueryKeyParts {
    QueryKeyParts {
        canonical: c.to_string(),
        solver_identity: id.to_string(),
        timeout_ms: 100,
        mem_mb: 1024,
    }
}

#[test]
fn key_is_stable_and_field_sensitive() {
    let k1 = query_key(&parts("(check-sat)\n", "z3-4.12"));
    assert_eq!(k1, query_key(&parts("(check-sat)\n", "z3-4.12")), "stable");
    assert_ne!(k1, query_key(&parts("(check-sat)\n", "z3-4.13")), "identity in key");
    let slow = QueryKeyParts { timeout_ms: 200, ..parts("(check-sat)\n", "z3-4.12") };
    assert_ne!(k1, query_key(&slow), "limits in key");
    let large = QueryKeyParts { mem_mb: 2048, ..parts("(check-sat)\n", "z3-4.12") };
    assert_ne!(k1, query_key(&large), "limits in key");
}

#[test]
fn key_fields_are_length_prefixed() {
    assert_ne!(query_key(&parts("ab", "c")), query_key(&parts("a", "bc")));
}

#[test]
fn outcome_round_trips() {
    let mut disk = Disk::default();
    let c = QueryCache::open("/c".to_string());
    let key = [3u8; 32];
    assert_eq!(c.get(disk.read(&c.path(&key))), None);
    for v in [
        CachedOutcome::Unsat,
        CachedOutcome::Unknown,
        CachedOutcome::Sat { model: None },
        CachedOutcome::Sat { model: Some("((p0 ptr-nil))".to_string()) },
    ] {
        disk.perform(c.put(&key, &v, 1));
        assert_eq!(c.get(disk.read(&c.path(&key))), Some(v));
    }
}

#[test]
fn corrupt_entry_is_a_miss_not_a_panic() {
    let mut disk = Disk::default();
    let c = QueryCache::open("/c".to_string());
    let key = [4u8; 32];
    disk.perform(c.put(&key, &CachedOutcome::Unsat, 1));
    let path = format!("/c/query/{}/{}", &hex(&key)[..2], hex(&key));
    assert!(disk.files.contains_key(&path));
    for bytes in [&b""[..], &b"\xff\xff\xff"[..], &[1, 1][..]] {
        disk.files.insert(path.clone(), bytes.to_vec());
        assert_eq!(c.get(disk.read(&c.path(&key))), None, "bytes {bytes:?} must be a miss");
    }
}

#[test]
fn an_outcome_with_more_behind_it_is_a_miss() {
    let mut bytes = encode(&CachedOutcome::Sat { model: Some("m".to_string()) });
    assert!(decode(&bytes).is_some());
    bytes.push(0);
    assert_eq!(decode(&bytes), None);
}

#[test]
fn a_model_that_is_no_text_is_a_miss() {
    let good = encode(&CachedOutcome::Sat { model: Some("\u{e9}".to_string()) });
    assert!(decode(&good).is_some());
    let mut bad = good.clone();
    let last = bad.len() - 1;
    bad[last] = b'x';
    assert_eq!(decode(&bad), None, "the first byte of two is followed by a letter");
}

// ---- Components ----

fn sample_entry() -> SccEntry {
    let term = Term::eq(Term::var("p0", Sort::BitVec(64)), Term::bv_lit(64, 0)).unwrap();
    SccEntry {
        members: vec![MemberEntry {
            func: "example.com/m.F".to_string(),
            summary: Summary {
                requires_: vec![Clause {
                    tag: "nil-deref".to_string(),
                    formula: Formula { term },
                    provenance: Provenance::Inferred,
                }],
                ensures_: vec![],
                effects: Effects::top(),
                provenance: Provenance::Inferred,
            },
            analysis_diag: Some("widened".to_string()),
            findings: vec![Finding {
                checker: "nil".to_string(),
                tag: "nil-deref".to_string(),
                func: "example.com/m.F".to_string(),
                pos: Some(Pos { file: "m.go".to_string(), line: 3, col: 9 }),
                message: "possible nil dereference".to_string(),
                trace: vec![TraceStep { block: 0, pos: None }],
                model: vec![("p0".to_string(), "(ptr-nil)".to_string())],
                severity: Severity::Error,
            }],
            findings_diags: vec!["skipped encode".to_string()],
        }],
    }
}

#[test]
fn entry_round_trips() {
    let e = sample_entry();
    let bytes = encode_entry(&e);
    let back = decode_entry_bytes(&bytes).expect("decode_entry_bytes()");
    assert_eq!(back.members.len(), 1);
    let (a, b) = (&back.members[0], &e.members[0]);
    assert_eq!(a.func, b.func);
    assert!(a.summary.same(&b.summary), "a summary with its effects and terms");
    assert_eq!(a.analysis_diag, b.analysis_diag);
    assert_eq!(a.findings, b.findings);
    assert_eq!(a.findings_diags, b.findings_diags);
}

#[test]
fn corrupt_entries_are_none_never_panic() {
    let bytes = encode_entry(&sample_entry());
    for cut in 0..bytes.len() {
        assert!(decode_entry_bytes(&bytes[..cut].to_vec()).is_none());
    }
    let mut garbled = bytes.clone();
    garbled.push(0);
    assert!(decode_entry_bytes(&garbled).is_none(), "trailing garbage = miss");
    assert!(decode_entry_bytes(&vec![]).is_none());
    assert!(decode_entry_bytes(&vec![0xff; 8]).is_none());
}

fn config(identity: &str) -> CacheConfigKey {
    CacheConfigKey {
        solver_identity: identity.to_string(),
        findings_identity: identity.to_string(),
        infer_limits: SolverLimits { timeout_ms: 100, mem_mb: 1024 },
        findings_limits: SolverLimits { timeout_ms: 5000, mem_mb: 1024 },
        widen_after: 3,
        checkers: vec![("nil".to_string(), 1)],
        annotation_version: 0,
    }
}

#[test]
fn store_round_trip_and_key_shape() {
    let mut disk = Disk::default();
    let c = SccCache::open("/c".to_string(), &config("stub"));
    let key = [9u8; 32];
    assert!(c.get(disk.read(&c.path(&key))).is_none(), "empty cache misses");
    disk.perform(c.put(&key, &sample_entry(), 1));
    assert!(c.get(disk.read(&c.path(&key))).is_some(), "round-trips through the store");
    let c2 = SccCache::open("/c".to_string(), &config("other"));
    assert_ne!(c.salt, c2.salt, "identity is in the salt");
}

#[test]
fn every_part_of_the_configuration_is_in_the_salt() {
    let salt = |c: CacheConfigKey| SccCache::open("/c".to_string(), &c).salt;
    let base = salt(config("z3"));
    assert_eq!(base, salt(config("z3")));
    let mut c = config("z3");
    c.findings_identity = "cvc5".to_string();
    assert_ne!(base, salt(c));
    let mut c = config("z3");
    c.infer_limits.timeout_ms = 101;
    assert_ne!(base, salt(c));
    let mut c = config("z3");
    c.findings_limits.mem_mb = 1;
    assert_ne!(base, salt(c));
    let mut c = config("z3");
    c.widen_after = 4;
    assert_ne!(base, salt(c));
    let mut c = config("z3");
    c.checkers.push(("goroutine-leak".to_string(), 1));
    assert_ne!(base, salt(c));
    let mut c = config("z3");
    c.checkers[0].1 = 2;
    assert_ne!(base, salt(c));
    let mut c = config("z3");
    c.annotation_version = 1;
    assert_ne!(base, salt(c));
}

/// Functions with these digests; 1 calls 0, 2 calls 1, and 3 calls nothing.
fn chain(digests: [u8; 4]) -> (Program, Sccs) {
    let funcs = digests
        .iter()
        .enumerate()
        .map(|(i, d)| FuncDecl { name: format!("t.F{i}"), body: None, ir_hash: [*d; 32] })
        .collect();
    let sccs = Sccs {
        schedule: (0..4).map(|i| vec![FuncId(i)]).collect(),
        callee_sccs: vec![vec![], vec![0], vec![1], vec![]],
    };
    (Program { funcs, types: TypeTable { entries: vec![] } }, sccs)
}

#[test]
fn an_edit_changes_the_keys_of_the_function_and_its_callers() {
    let c = SccCache::open("/c".to_string(), &config("z3"));
    let keys = |d: [u8; 4]| {
        let (p, sccs) = chain(d);
        c.keys(&p, &sccs)
    };
    let before = keys([1, 2, 3, 4]);
    assert_eq!(before, keys([1, 2, 3, 4]));
    let after = keys([1, 9, 3, 4]);
    assert_eq!(before[0], after[0], "a callee keeps its key");
    assert_ne!(before[1], after[1]);
    assert_ne!(before[2], after[2], "a caller does not");
    assert_eq!(before[3], after[3], "nor is another function touched");
}

#[test]
fn the_order_within_a_component_is_not_in_the_key() {
    let c = SccCache::open("/c".to_string(), &config("z3"));
    let (p, mut sccs) = chain([1, 2, 3, 4]);
    sccs.schedule = vec![vec![FuncId(0)], vec![FuncId(3)], vec![FuncId(1), FuncId(2)]];
    sccs.callee_sccs = vec![vec![], vec![], vec![0, 1]];
    let a = c.keys(&p, &sccs);
    sccs.schedule[2] = vec![FuncId(2), FuncId(1)];
    sccs.callee_sccs[2] = vec![1, 0];
    assert_eq!(a, c.keys(&p, &sccs));
}

// ---- Terms ----

fn coded(t: &Term) -> Vec<u8> {
    let mut out = Vec::new();
    encode_term(t, &mut out);
    out
}

fn read(bytes: &Vec<u8>) -> Option<Term> {
    match decode_term(bytes, 0, MAX_TERM_DEPTH) {
        Some((t, end)) if end == bytes.len() => Some(t),
        _ => None,
    }
}

fn var(name: &str) -> Term {
    Term::var(name, Sort::BitVec(8))
}

#[test]
fn terms_round_trip() {
    let terms = vec![
        Term::bool_lit(true),
        Term::bv_lit(64, u128::MAX),
        Term::eq(var("a"), var("b")).unwrap(),
        Term::not(ptr_is_nil(Term::var("p", ptr_sort())).unwrap()).unwrap(),
        Term::and(vec![Term::bool_lit(true), Term::bool_lit(false)]).unwrap(),
        Term::or(vec![Term::bool_lit(false)]).unwrap(),
        Term::ite(Term::bool_lit(false), var("a"), var("b")).unwrap(),
        Term::bv_bin(BvBinOp::Ashr, var("a"), var("b")).unwrap(),
        Term::bv_compare(BvCmpOp::Sle, var("a"), var("b")).unwrap(),
    ];
    for t in terms {
        let bytes = coded(&t);
        let back = read(&bytes).expect("reads back");
        assert!(back.same(&t), "{t:?}");
        for cut in 0..bytes.len() {
            assert!(read(&bytes[..cut].to_vec()).is_none());
        }
    }
    assert!(read(&vec![0xff; 4]).is_none());
}

#[test]
fn a_term_that_is_too_deep_does_not_read_back() {
    let mut t = Term::bool_lit(true);
    for _ in 0..500 {
        t = Term::not(t).unwrap();
    }
    assert!(read(&coded(&t)).is_some());
    for _ in 0..100 {
        t = Term::not(t).unwrap();
    }
    assert!(read(&coded(&t)).is_none());
}
