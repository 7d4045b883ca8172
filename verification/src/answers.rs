//! The answers that a solver gave so far.
//!
//! An analysis is a function of the answers. It notes what it asks, so that a caller can have
//! the open questions answered and analyse again, until nothing is open.

use vstd::prelude::*;
use crate::checker::queries_v;
use crate::codec::views;
use crate::order::SortedMap;
use crate::query::{query_text, Query, QueryV, SatResult};
use crate::query_cache::{CachedOutcome, OutcomeV};

verus! {

/// Answers by the text of the question.
#[derive(Debug, PartialEq, Eq)]
pub struct Answers {
    table: SortedMap<String, CachedOutcome>,
}

impl View for Answers {
    type V = Map<Seq<char>, OutcomeV>;

    closed spec fn view(&self) -> Map<Seq<char>, OutcomeV> {
        self.table@
    }
}

/// The answer to `q`; without one it is "unknown".
pub open spec fn answer(m: Map<Seq<char>, OutcomeV>, q: QueryV) -> OutcomeV {
    if m.contains_key(query_text(q)) {
        m[query_text(q)]
    } else {
        OutcomeV::Unknown
    }
}

/// The verdicts on `qs`.
pub open spec fn verdicts_on(m: Map<Seq<char>, OutcomeV>, qs: Seq<QueryV>) -> Seq<SatResult> {
    Seq::new(qs.len(), |i: int| answer(m, qs[i]).result_of())
}

/// The texts of `qs`.
pub open spec fn texts_of(qs: Seq<QueryV>) -> Seq<Seq<char>> {
    Seq::new(qs.len(), |i: int| query_text(qs[i]))
}

/// Whether question `i` is marked as one to skip.
pub open spec fn is_skipped(skipped: Seq<bool>, i: int) -> bool {
    0 <= i < skipped.len() && skipped[i]
}

/// The texts of those of the first `n` questions that are not skipped.
pub open spec fn asked_texts(qs: Seq<QueryV>, skipped: Seq<bool>, n: nat) -> Seq<Seq<char>>
    decreases n,
{
    if n == 0 {
        Seq::empty()
    } else {
        let before = asked_texts(qs, skipped, (n - 1) as nat);
        if is_skipped(skipped, n - 1) {
            before
        } else {
            before.push(query_text(qs[n - 1]))
        }
    }
}

/// Notes those of the questions in `asked` that are not skipped.
pub fn note(qs: &Vec<Query>, skipped: &Vec<bool>, asked: &mut Vec<String>)
    ensures
        views(final(asked)@) == views(old(asked)@) + asked_texts(queries_v(qs@), skipped@, qs@.len()),
{
    let ghost start = views(asked@);
    let ghost qv = queries_v(qs@);
    let mut i: usize = 0;
    assert(start + Seq::<Seq<char>>::empty() =~= start);
    while i < qs.len()
        invariant
            i <= qs@.len(),
            qv == queries_v(qs@),
            views(asked@) == start + asked_texts(qv, skipped@, i as nat),
        decreases qs@.len() - i,
    {
        if i >= skipped.len() || !skipped[i] {
            let text = qs[i].canonical_text();
            let ghost before = asked@;
            let ghost tv = text@;
            asked.push(text);
            proof {
                assert(qv[i as int] == qs@[i as int]@);
                assert(views(asked@) =~= views(before).push(tv));
                let b = asked_texts(qv, skipped@, i as nat);
                assert((start + b).push(tv) =~= start + b.push(tv));
            }
        }
        i += 1;
    }
}

/// Those of the first `n` texts that have no answer, each once.
pub open spec fn open_upto(m: Map<Seq<char>, OutcomeV>, asked: Seq<Seq<char>>, n: nat) -> Seq<
    Seq<char>,
>
    decreases n,
{
    if n == 0 {
        Seq::empty()
    } else {
        let before = open_upto(m, asked, (n - 1) as nat);
        let t = asked[n - 1];
        if m.contains_key(t) || before.contains(t) {
            before
        } else {
            before.push(t)
        }
    }
}

impl Answers {
    /// Whether the table is sorted.
    pub closed spec fn wf(&self) -> bool {
        self.table.wf()
    }

    /// No answers.
    pub fn new() -> (r: Answers)
        ensures
            r.wf(),
            r@ == Map::<Seq<char>, OutcomeV>::empty(),
    {
        Answers { table: SortedMap::new() }
    }

    /// Notes the answer to the question with this text.
    pub fn set(&mut self, text: String, v: CachedOutcome)
        requires
            old(self).wf(),
        ensures
            final(self).wf(),
            final(self)@ == old(self)@.insert(text@, v@),
    {
        self.table.insert(text, v);
    }

    /// The answer to the question with this text, if there is one.
    pub fn get(&self, text: &String) -> (r: Option<&CachedOutcome>)
        requires
            self.wf(),
        ensures
            match r {
                Some(v) => self@.contains_key(text@) && v@ == self@[text@],
                None => !self@.contains_key(text@),
            },
    {
        self.table.get(text)
    }

    /// The answer to `q`, if there is one. The question is noted in `asked`.
    pub fn ask(&self, q: &Query, asked: &mut Vec<String>) -> (r: Option<&CachedOutcome>)
        requires
            self.wf(),
        ensures
            views(final(asked)@) == views(old(asked)@).push(query_text(q@)),
            match r {
                Some(v) => answer(self@, q@) == v@,
                None => answer(self@, q@) == OutcomeV::Unknown,
            },
    {
        let text = q.canonical_text();
        let r = self.get(&text);
        let ghost before = asked@;
        let ghost tv = text@;
        asked.push(text);
        assert(views(asked@) =~= views(before).push(tv));
        r
    }

    /// The verdicts on `qs` so far.
    pub fn verdicts(&self, qs: &Vec<Query>) -> (r: Vec<SatResult>)
        requires
            self.wf(),
        ensures
            r@ == verdicts_on(self@, queries_v(qs@)),
    {
        let ghost qv = queries_v(qs@);
        let mut out: Vec<SatResult> = Vec::new();
        let mut i: usize = 0;
        while i < qs.len()
            invariant
                i <= qs@.len(),
                self.wf(),
                qv == queries_v(qs@),
                out@ == verdicts_on(self@, qv).take(i as int),
            decreases qs@.len() - i,
        {
            let text = qs[i].canonical_text();
            let v = match self.get(&text) {
                Some(v) => v.result(),
                None => SatResult::Unknown,
            };
            assert(qv[i as int] == qs@[i as int]@);
            out.push(v);
            i += 1;
            assert(verdicts_on(self@, qv).take(i as int) =~= verdicts_on(self@, qv).take(i - 1).push(
                verdicts_on(self@, qv)[i - 1],
            ));
        }
        assert(verdicts_on(self@, qv).take(i as int) =~= verdicts_on(self@, qv));
        out
    }

    /// The verdicts on `qs`. The questions are noted in `asked`.
    pub fn ask_all(&self, qs: &Vec<Query>, asked: &mut Vec<String>) -> (r: Vec<SatResult>)
        requires
            self.wf(),
        ensures
            views(final(asked)@) == views(old(asked)@) + texts_of(queries_v(qs@)),
            r@ == verdicts_on(self@, queries_v(qs@)),
    {
        let skipped: Vec<bool> = Vec::new();
        note(qs, &skipped, asked);
        proof {
            lemma_all_asked(queries_v(qs@), skipped@, qs@.len());
        }
        self.verdicts(qs)
    }

    /// Those of the questions in `asked` that have no answer, each once.
    pub fn open(&self, asked: &Vec<String>) -> (r: Vec<String>)
        requires
            self.wf(),
        ensures
            views(r@) == open_upto(self@, views(asked@), asked@.len()),
    {
        let ghost av = views(asked@);
        let mut out: Vec<String> = Vec::new();
        let mut noted: SortedMap<String, bool> = SortedMap::new();
        let mut i: usize = 0;
        assert(views(out@) =~= Seq::<Seq<char>>::empty());
        while i < asked.len()
            invariant
                i <= asked@.len(),
                self.wf(),
                noted.wf(),
                av == views(asked@),
                views(out@) == open_upto(self@, av, i as nat),
                forall|t: Seq<char>| #[trigger]
                    noted@.contains_key(t) <==> views(out@).contains(t),
            decreases asked@.len() - i,
        {
            let ghost t = av[i as int];
            let ghost before = views(out@);
            let known = self.get(&asked[i]).is_some();
            let seen = noted.get(&asked[i]).is_some();
            if !known && !seen {
                let x = asked[i].clone();
                let ghost ov = out@;
                let ghost nv = noted@;
                out.push(x);
                noted.insert(asked[i].clone(), true);
                proof {
                    assert(views(out@) =~= before.push(t));
                    assert forall|u: Seq<char>| #[trigger]
                        noted@.contains_key(u) <==> views(out@).contains(u) by {
                        let ws = views(out@);
                        if before.contains(u) {
                            let j = choose|j: int| 0 <= j < before.len() && before[j] == u;
                            assert(ws[j] == u);
                        }
                        if u == t {
                            assert(ws[before.len() as int] == u);
                        }
                        if ws.contains(u) {
                            let j = choose|j: int| 0 <= j < ws.len() && ws[j] == u;
                            if j < before.len() {
                                assert(before[j] == u);
                            }
                        }
                        assert(nv.contains_key(u) <==> before.contains(u));
                    }
                }
            }
            i += 1;
        }
        out
    }
}

/// Where nothing is skipped, everything is asked.
pub proof fn lemma_all_asked(qs: Seq<QueryV>, skipped: Seq<bool>, n: nat)
    requires
        n <= qs.len(),
        skipped.len() == 0,
    ensures
        asked_texts(qs, skipped, n) == texts_of(qs).take(n as int),
        n == qs.len() ==> asked_texts(qs, skipped, n) == texts_of(qs),
    decreases n,
{
    if n > 0 {
        lemma_all_asked(qs, skipped, (n - 1) as nat);
    }
    assert(asked_texts(qs, skipped, n) =~= texts_of(qs).take(n as int));
    assert(texts_of(qs).take(qs.len() as int) =~= texts_of(qs));
}

/// Nothing is open exactly when every question that was asked has an answer.
pub proof fn open_iff_unanswered(m: Map<Seq<char>, OutcomeV>, asked: Seq<Seq<char>>)
    ensures
        open_upto(m, asked, asked.len()).len() == 0 <==> forall|i: int|
            0 <= i < asked.len() ==> m.contains_key(#[trigger] asked[i]),
{
    lemma_open(m, asked, asked.len());
}

proof fn lemma_open(m: Map<Seq<char>, OutcomeV>, asked: Seq<Seq<char>>, n: nat)
    requires
        n <= asked.len(),
    ensures
        open_upto(m, asked, n).len() == 0 <==> forall|i: int|
            0 <= i < n ==> m.contains_key(#[trigger] asked[i]),
    decreases n,
{
    if n > 0 {
        let k = (n - 1) as nat;
        lemma_open(m, asked, k);
        let before = open_upto(m, asked, k);
        if before.len() == 0 {
            if !m.contains_key(asked[k as int]) {
                assert(!before.contains(asked[k as int]));
            }
        } else {
            let i = choose|i: int| 0 <= i < k && !m.contains_key(#[trigger] asked[i]);
            assert(!m.contains_key(asked[i]));
        }
    }
}

} // verus!
