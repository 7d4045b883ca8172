//! The cache of solver answers.
//!
//! A key is a digest over the query's text, the solver's identity and its limits. An answer
//! "unknown" is cached too: it is determined by the solver and its limits, which is why both
//! are in the key.

use vstd::prelude::*;
use vstd::utf8::encode_utf8;
use crate::codec::{le_bytes, pow256, pow256_values, put_le, put_str, text_bytes, Codec};
use crate::digest::{blake3_digest, digest, le_splits, put_field, text_field, text_field_splits};
use crate::query::SatResult;
use crate::store::{entry_path_of, stores, Store, Write};

verus! {

/// What an answer depends on.
#[derive(Debug, Clone, PartialEq, Eq)]
pub struct QueryKeyParts {
    pub canonical: String,
    pub solver_identity: String,
    pub timeout_ms: u32,
    pub mem_mb: u32,
}

/// The model of [`QueryKeyParts`].
pub struct QueryKeyV {
    pub canonical: Seq<char>,
    pub solver_identity: Seq<char>,
    pub timeout_ms: u32,
    pub mem_mb: u32,
}

impl View for QueryKeyParts {
    type V = QueryKeyV;

    open spec fn view(&self) -> QueryKeyV {
        QueryKeyV {
            canonical: self.canonical@,
            solver_identity: self.solver_identity@,
            timeout_ms: self.timeout_ms,
            mem_mb: self.mem_mb,
        }
    }
}

/// The bytes whose digest is the key.
pub open spec fn query_key_bytes(v: QueryKeyV) -> Seq<u8> {
    text_field(v.canonical) + (text_field(v.solver_identity) + (le_bytes(4, v.timeout_ms as nat)
        + le_bytes(4, v.mem_mb as nat)))
}

/// The key of an answer. Fields carry their lengths, so that text cannot pass from one to the
/// next.
pub fn query_key(parts: &QueryKeyParts) -> (r: [u8; 32])
    ensures
        r@ == blake3_digest(query_key_bytes(parts@)),
{
    let mut out: Vec<u8> = Vec::new();
    put_field(&mut out, parts.canonical.as_str());
    put_field(&mut out, parts.solver_identity.as_str());
    put_le(&mut out, 4, parts.timeout_ms as u128);
    put_le(&mut out, 4, parts.mem_mb as u128);
    assert(out@ =~= query_key_bytes(parts@));
    digest(&out)
}

/// Different parts never give the same bytes to digest.
pub proof fn query_key_bytes_injective(a: QueryKeyV, b: QueryKeyV)
    requires
        encode_utf8(a.canonical).len() < pow256(8),
        encode_utf8(b.canonical).len() < pow256(8),
        encode_utf8(a.solver_identity).len() < pow256(8),
        encode_utf8(b.solver_identity).len() < pow256(8),
        query_key_bytes(a) == query_key_bytes(b),
    ensures
        a == b,
{
    pow256_values();
    let la = le_bytes(4, a.timeout_ms as nat) + le_bytes(4, a.mem_mb as nat);
    let lb = le_bytes(4, b.timeout_ms as nat) + le_bytes(4, b.mem_mb as nat);
    text_field_splits(
        a.canonical,
        text_field(a.solver_identity) + la,
        b.canonical,
        text_field(b.solver_identity) + lb,
    );
    text_field_splits(a.solver_identity, la, b.solver_identity, lb);
    let ma = le_bytes(4, a.mem_mb as nat);
    let mb = le_bytes(4, b.mem_mb as nat);
    le_splits(4, a.timeout_ms as nat, b.timeout_ms as nat, ma, mb);
    assert(ma + Seq::<u8>::empty() =~= ma);
    assert(mb + Seq::<u8>::empty() =~= mb);
    le_splits(4, a.mem_mb as nat, b.mem_mb as nat, Seq::empty(), Seq::empty());
}

/// A solver's answer, with the model that came with it.
#[derive(Debug, PartialEq, Eq)]
pub enum CachedOutcome {
    Sat { model: Option<String> },
    Unsat,
    Unknown,
}

/// The model of a [`CachedOutcome`].
pub enum OutcomeV {
    Sat { model: Option<Seq<char>> },
    Unsat,
    Unknown,
}

impl View for CachedOutcome {
    type V = OutcomeV;

    open spec fn view(&self) -> OutcomeV {
        match self {
            CachedOutcome::Sat { model: Some(m) } => OutcomeV::Sat { model: Some(m@) },
            CachedOutcome::Sat { model: None } => OutcomeV::Sat { model: None },
            CachedOutcome::Unsat => OutcomeV::Unsat,
            CachedOutcome::Unknown => OutcomeV::Unknown,
        }
    }
}

impl OutcomeV {
    /// The verdict.
    pub open spec fn result_of(self) -> SatResult {
        match self {
            OutcomeV::Sat { .. } => SatResult::Sat,
            OutcomeV::Unsat => SatResult::Unsat,
            OutcomeV::Unknown => SatResult::Unknown,
        }
    }

    /// The model, where there is one.
    pub open spec fn model_of(self) -> Option<Seq<char>> {
        match self {
            OutcomeV::Sat { model } => model,
            _ => None,
        }
    }
}

impl CachedOutcome {
    /// The verdict.
    pub fn result(&self) -> (r: SatResult)
        ensures
            r == self@.result_of(),
    {
        match self {
            CachedOutcome::Sat { .. } => SatResult::Sat,
            CachedOutcome::Unsat => SatResult::Unsat,
            CachedOutcome::Unknown => SatResult::Unknown,
        }
    }

    /// The model, where there is one.
    pub fn model(&self) -> (r: Option<&String>)
        ensures
            match r {
                Some(m) => self@.model_of() == Some(m@),
                None => self@.model_of() is None,
            },
    {
        match self {
            CachedOutcome::Sat { model: Some(m) } => Some(m),
            _ => None,
        }
    }
}

/// The version of the format of an answer.
pub const VERSION: u8 = 1;

/// The layer of answers.
pub const LAYER: &'static str = "query";

/// The bytes of an answer: the version, a code, and for a model its text.
pub open spec fn outcome_bytes(v: OutcomeV) -> Seq<u8> {
    match v {
        OutcomeV::Unsat => seq![VERSION, 0u8],
        OutcomeV::Sat { model: None } => seq![VERSION, 1u8, 0u8],
        OutcomeV::Sat { model: Some(m) } => seq![VERSION, 1u8, 1u8] + text_bytes(m),
        OutcomeV::Unknown => seq![VERSION, 2u8],
    }
}

/// The answer that the bytes stand for, if they are well formed to their end.
pub open spec fn read_outcome(b: Seq<u8>) -> Option<OutcomeV> {
    if b == seq![VERSION, 0u8] {
        Some(OutcomeV::Unsat)
    } else if b == seq![VERSION, 2u8] {
        Some(OutcomeV::Unknown)
    } else if b == seq![VERSION, 1u8, 0u8] {
        Some(OutcomeV::Sat { model: None })
    } else if b.len() >= 3 && b[0] == VERSION && b[1] == 1 && b[2] == 1 {
        match <String as Codec>::read(b.skip(3)) {
            Some((m, rest)) => if rest.len() == 0 {
                Some(OutcomeV::Sat { model: Some(m) })
            } else {
                None
            },
            None => None,
        }
    } else {
        None
    }
}

/// The bytes of an answer.
pub fn encode(v: &CachedOutcome) -> (r: Vec<u8>)
    ensures
        r@ == outcome_bytes(v@),
{
    let mut out: Vec<u8> = Vec::new();
    out.push(VERSION);
    match v {
        CachedOutcome::Unsat => {
            out.push(0);
        },
        CachedOutcome::Sat { model } => {
            out.push(1);
            match model {
                None => {
                    out.push(0);
                },
                Some(m) => {
                    out.push(1);
                    put_str(&mut out, m.as_str());
                },
            }
        },
        CachedOutcome::Unknown => {
            out.push(2);
        },
    }
    assert(out@ =~= outcome_bytes(v@));
    out
}

/// The answer in `b`; bytes of any other shape are none.
pub fn decode(b: &Vec<u8>) -> (r: Option<CachedOutcome>)
    ensures
        match r {
            Some(v) => read_outcome(b@) == Some(v@),
            None => read_outcome(b@) is None,
        },
{
    if b.len() < 2 || b[0] != VERSION {
        return None;
    }
    if b.len() == 2 {
        if b[1] == 0 {
            assert(b@ =~= seq![VERSION, 0u8]);
            return Some(CachedOutcome::Unsat);
        }
        if b[1] == 2 {
            assert(b@ =~= seq![VERSION, 2u8]);
            return Some(CachedOutcome::Unknown);
        }
        return None;
    }
    if b[1] != 1 {
        return None;
    }
    if b.len() == 3 && b[2] == 0 {
        assert(b@ =~= seq![VERSION, 1u8, 0u8]);
        return Some(CachedOutcome::Sat { model: None });
    }
    if b[2] != 1 {
        return None;
    }
    match <String as Codec>::take(b, 3) {
        Some((m, k)) => {
            if k == b.len() {
                Some(CachedOutcome::Sat { model: Some(m) })
            } else {
                None
            }
        },
        None => None,
    }
}

/// An answer that was written reads back.
pub proof fn outcome_round_trip(v: OutcomeV)
    requires
        v matches OutcomeV::Sat { model: Some(m) } ==> encode_utf8(m).len() < pow256(4),
    ensures
        read_outcome(outcome_bytes(v)) == Some(v),
{
    match v {
        OutcomeV::Sat { model: Some(m) } => {
            let b = outcome_bytes(v);
            assert(b.skip(3) =~= text_bytes(m));
            <String as Codec>::round_trip(m, Seq::empty());
            assert(text_bytes(m) + Seq::<u8>::empty() =~= text_bytes(m));
        },
        _ => {},
    }
}

/// The bytes of an answer with anything behind them are no answer.
pub proof fn outcome_with_more_is_none(v: OutcomeV, more: Seq<u8>)
    requires
        more.len() > 0,
        v matches OutcomeV::Sat { model: Some(m) } ==> encode_utf8(m).len() < pow256(4),
    ensures
        read_outcome(outcome_bytes(v) + more) is None,
{
    let b = outcome_bytes(v) + more;
    assert(b[0] == outcome_bytes(v)[0] && b[1] == outcome_bytes(v)[1]);
    match v {
        OutcomeV::Sat { model: Some(m) } => {
            assert(b[2] == 1);
            assert(b.skip(3) =~= text_bytes(m) + more);
            <String as Codec>::round_trip(m, more);
        },
        OutcomeV::Sat { model: None } => {
            assert(b[2] == 0);
            assert(b.len() > 3);
        },
        _ => {
            assert(b.len() > 2);
        },
    }
}

/// The cached answers.
#[derive(Debug, Clone, PartialEq, Eq)]
pub struct QueryCache {
    pub store: Store,
}

impl QueryCache {
    /// A cache at `root`.
    pub fn open(root: String) -> (r: QueryCache)
        ensures
            r.store.root@ == root@,
    {
        QueryCache { store: Store::open(root) }
    }

    /// Where the answer at `key` lies.
    pub fn path(&self, key: &[u8; 32]) -> (r: String)
        ensures
            r@ == entry_path_of(self.store.root@, LAYER@, key@),
    {
        self.store.entry_path(LAYER, key)
    }

    /// The answer in what was read at [`QueryCache::path`]; what could not be read, or is no
    /// answer, is a miss.
    pub fn get(&self, stored: Option<Vec<u8>>) -> (r: Option<CachedOutcome>)
        ensures
            match stored {
                Some(b) => match r {
                    Some(v) => read_outcome(b@) == Some(v@),
                    None => read_outcome(b@) is None,
                },
                None => r is None,
            },
    {
        match stored {
            Some(b) => decode(&b),
            None => None,
        }
    }

    /// What is to be written to store `v` at `key`.
    pub fn put(&self, key: &[u8; 32], v: &CachedOutcome, owner: u32) -> (r: Write)
        ensures
            stores(r, self.store.root@, LAYER@, key@, owner),
            r.bytes@ == outcome_bytes(v@),
    {
        self.store.put(LAYER, key, encode(v), owner)
    }
}

} // verus!
