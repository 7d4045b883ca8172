//! Results as text, one line each.

use vstd::prelude::*;
use crate::checker::{Finding, FindingV};
use crate::codec::views;
use crate::effects::{
    ChanOp, ChanOps, Effects, EffectsV, Loc, LocV, LockOp, LockOps, Root, RootV, Spawns,
};
use crate::engine::Analysis;
use crate::ir::{FuncId, Program};
use crate::order::{listing, SortedMap};
use crate::prepass::Domains;
use crate::records::{chan_ops, lock_ops, one_if};
use crate::sort::{sort_items, sorted};
use crate::summary::{Provenance, Summary, SummaryV};
use crate::text::{chars_of, dec, push_dec};

verus! {

// ---- Texts ----

/// Whether `part` stands in `s` at `i`.
pub open spec fn stands_at(s: Seq<char>, part: Seq<char>, i: int) -> bool {
    0 <= i && i + part.len() <= s.len() && s.subrange(i, i + part.len()) == part
}

/// Whether `part` stands in `s`.
pub open spec fn has_part(s: Seq<char>, part: Seq<char>) -> bool {
    exists|i: int| stands_at(s, part, i)
}

/// Whether a name passes the filter.
pub open spec fn passes(name: Seq<char>, filter: Option<Seq<char>>) -> bool {
    match filter {
        Some(part) => has_part(name, part),
        None => true,
    }
}

fn is_at(s: &Vec<char>, part: &Vec<char>, i: usize) -> (r: bool)
    requires
        i + part@.len() <= s@.len(),
    ensures
        r == stands_at(s@, part@, i as int),
{
    let ghost sub = s@.subrange(i as int, i + part@.len());
    let mut j: usize = 0;
    while j < part.len()
        invariant
            j <= part@.len(),
            i + part@.len() <= s.len(),
            sub == s@.subrange(i as int, i + part@.len()),
            forall|k: int| 0 <= k < j ==> sub[k] == part@[k],
        decreases part@.len() - j,
    {
        assert(sub[j as int] == s@[i + j]);
        if s[i + j] != part[j] {
            return false;
        }
        j += 1;
    }
    assert(sub =~= part@);
    true
}

fn holds_part(s: &str, part: &str) -> (r: bool)
    ensures
        r == has_part(s@, part@),
{
    let cs = chars_of(s);
    let ps = chars_of(part);
    if ps.len() > cs.len() {
        return false;
    }
    let last = cs.len() - ps.len();
    let mut i: usize = 0;
    while i <= last
        invariant
            last == cs@.len() - ps@.len(),
            cs@.len() >= ps@.len(),
            i <= last + 1,
            cs@ == s@,
            ps@ == part@,
            cs.len() >= ps.len(),
            forall|k: int| 0 <= k < i ==> !#[trigger] stands_at(s@, part@, k),
        decreases last + 1 - i,
    {
        if is_at(&cs, &ps, i) {
            return true;
        }
        if i == last {
            assert forall|k: int| !#[trigger] stands_at(s@, part@, k) by {}
            return false;
        }
        i += 1;
    }
    false
}

fn keeps(name: &str, filter: Option<&str>) -> (r: bool)
    ensures
        r == passes(
            name@,
            match filter {
                Some(x) => Some(x@),
                None => None,
            },
        ),
{
    match filter {
        Some(part) => holds_part(name, part),
        None => true,
    }
}

/// The first `n` lines, each with its end.
pub open spec fn lines_upto(lines: Seq<Seq<char>>, n: nat) -> Seq<char>
    decreases n,
{
    if n == 0 {
        Seq::empty()
    } else {
        lines_upto(lines, (n - 1) as nat) + lines[n - 1] + "\n"@
    }
}

/// Lines as one text.
fn render_lines(lines: &Vec<String>) -> (r: String)
    ensures
        r@ == lines_upto(views(lines@), lines@.len()),
{
    let ghost lv = views(lines@);
    let mut out = "".to_string();
    proof {
        reveal_strlit("");
        assert(out@ =~= Seq::<char>::empty());
    }
    let mut i: usize = 0;
    while i < lines.len()
        invariant
            i <= lines@.len(),
            lv == views(lines@),
            out@ == lines_upto(lv, i as nat),
        decreases lines@.len() - i,
    {
        out.append(lines[i].as_str());
        out.append("\n");
        assert(lv[i as int] == lines@[i as int]@);
        i += 1;
    }
    out
}

/// "true" or "false".
pub open spec fn bool_text(b: bool) -> Seq<char> {
    if b { "true"@ } else { "false"@ }
}

fn push_bool(out: &mut String, b: bool)
    ensures
        final(out)@ == old(out)@ + bool_text(b),
{
    if b {
        out.append("true");
    } else {
        out.append("false");
    }
}

// ---- What is clean ----

/// The line of one function.
pub open spec fn prepass_line(name: Seq<char>, d: Domains) -> Seq<char> {
    name + " value_clean="@ + bool_text(d.value_clean) + " concurrency_clean="@ + bool_text(
        d.concurrency_clean,
    )
}

/// The lines of the first `n` functions that pass the filter.
pub open spec fn prepass_lines(
    p: &Program,
    pre: Seq<Domains>,
    filter: Option<Seq<char>>,
    n: nat,
) -> Seq<Seq<char>>
    decreases n,
{
    if n == 0 {
        Seq::empty()
    } else {
        let before = prepass_lines(p, pre, filter, (n - 1) as nat);
        let name = p.name_of(FuncId((n - 1) as u32));
        if passes(name, filter) {
            before.push(prepass_line(name, pre[n - 1]))
        } else {
            before
        }
    }
}

/// A list of lines in order, as one text.
pub open spec fn sorted_text(lines: Seq<Seq<char>>) -> Seq<char> {
    let s = sorted::<String>(lines);
    lines_upto(s, s.len())
}

/// What is clean, one line for each function whose name holds `filter`, sorted.
pub fn dump_prepass(p: &Program, a: &Analysis, filter: Option<&str>) -> (r: String)
    requires
        a.prepass@.len() <= u32::MAX,
    ensures
        r@ == sorted_text(
            prepass_lines(
                p,
                a.prepass@,
                match filter {
                    Some(x) => Some(x@),
                    None => None,
                },
                a.prepass@.len(),
            ),
        ),
{
    let ghost fv = match filter {
        Some(x) => Some(x@),
        None => None,
    };
    let mut lines: Vec<String> = Vec::new();
    let mut i: usize = 0;
    assert(views(lines@) =~= Seq::<Seq<char>>::empty());
    while i < a.prepass.len()
        invariant
            i <= a.prepass@.len(),
            a.prepass@.len() <= u32::MAX,
            fv == (match filter {
                Some(x) => Some(x@),
                None => None,
            }),
            views(lines@) == prepass_lines(p, a.prepass@, fv, i as nat),
        decreases a.prepass@.len() - i,
    {
        let name = p.func_name(FuncId(i as u32));
        if keeps(name, filter) {
            let d = &a.prepass[i];
            let mut line = name.to_string();
            line.append(" value_clean=");
            push_bool(&mut line, d.value_clean);
            line.append(" concurrency_clean=");
            push_bool(&mut line, d.concurrency_clean);
            let ghost before = lines@;
            let ghost lv = line@;
            lines.push(line);
            assert(views(lines@) =~= views(before).push(lv));
        }
        i += 1;
    }
    let s = sort_items(lines);
    assert(views(s@).len() == s@.len());
    render_lines(&s)
}

// ---- Summaries ----

/// The first `n` fields of a path.
pub open spec fn path_text(path: Seq<u32>, n: nat) -> Seq<char>
    decreases n,
{
    if n == 0 {
        Seq::empty()
    } else {
        path_text(path, (n - 1) as nat) + ".f"@ + dec(path[n - 1] as nat)
    }
}

/// A root as text.
pub open spec fn root_text(r: RootV) -> Seq<char> {
    match r {
        RootV::Param(i) => "p"@ + dec(i as nat),
        RootV::Global(g) => "g:"@ + g,
        RootV::Alloc(v) => "alloc:"@ + dec(v as nat),
        RootV::FreeVar(i) => "fv:"@ + dec(i as nat),
        RootV::Unknown => "?"@,
    }
}

/// A location as text.
pub open spec fn loc_text(l: LocV) -> Seq<char> {
    root_text(l.root) + path_text(l.path, l.path.len())
}

fn render_loc(l: &Loc) -> (r: String)
    ensures
        r@ == loc_text(l@),
{
    let mut out = match &l.root {
        Root::Param(i) => {
            let mut s = "p".to_string();
            push_dec(&mut s, *i as u128);
            s
        },
        Root::Global(g) => {
            let mut s = "g:".to_string();
            s.append(g.as_str());
            s
        },
        Root::Alloc(v) => {
            let mut s = "alloc:".to_string();
            push_dec(&mut s, *v as u128);
            s
        },
        Root::FreeVar(i) => {
            let mut s = "fv:".to_string();
            push_dec(&mut s, *i as u128);
            s
        },
        Root::Unknown => "?".to_string(),
    };
    let ghost head = out@;
    let mut i: usize = 0;
    assert(head + path_text(l.path@, 0) =~= head);
    while i < l.path.len()
        invariant
            i <= l.path@.len(),
            out@ == head + path_text(l.path@, i as nat),
        decreases l.path@.len() - i,
    {
        let ghost before = path_text(l.path@, i as nat);
        out.append(".f");
        push_dec(&mut out, l.path[i] as u128);
        i += 1;
        assert(out@ =~= head + path_text(l.path@, i as nat));
    }
    out
}

/// A kind of operation with names.
pub trait OpNames: crate::effects::OpSet {
    /// The names of the operations in the set, in order.
    spec fn names_of(self) -> Seq<Seq<char>>;

    /// The names of the operations in the set, in order.
    fn names(&self) -> (r: Vec<&'static str>)
        ensures
            r@.len() == self.names_of().len(),
            forall|i: int| 0 <= i < r@.len() ==> (#[trigger] r@[i])@ == self.names_of()[i],
    ;
}

/// The name of a channel operation.
pub open spec fn chan_name(op: ChanOp) -> Seq<char> {
    match op {
        ChanOp::Make => "Make"@,
        ChanOp::Send => "Send"@,
        ChanOp::Recv => "Recv"@,
        ChanOp::Close => "Close"@,
        ChanOp::Select => "Select"@,
    }
}

/// The name of a mutex operation.
pub open spec fn lock_name(op: LockOp) -> Seq<char> {
    match op {
        LockOp::Lock => "Lock"@,
        LockOp::Unlock => "Unlock"@,
        LockOp::RLock => "RLock"@,
        LockOp::RUnlock => "RUnlock"@,
        LockOp::DeferredUnlock => "DeferredUnlock"@,
        LockOp::DeferredRUnlock => "DeferredRUnlock"@,
    }
}

/// The models of texts.
spec fn texts_v(v: Seq<&'static str>) -> Seq<Seq<char>> {
    Seq::new(v.len(), |i: int| v[i]@)
}

fn push_if(out: &mut Vec<&'static str>, b: bool, name: &'static str)
    ensures
        texts_v(final(out)@) == texts_v(old(out)@) + one_if(b, name@),
{
    let ghost before = out@;
    if b {
        out.push(name);
        assert(texts_v(out@) =~= texts_v(before) + seq![name@]);
    } else {
        assert(texts_v(before) + Seq::<Seq<char>>::empty() =~= texts_v(before));
    }
}

impl OpNames for ChanOps {
    open spec fn names_of(self) -> Seq<Seq<char>> {
        let s = chan_ops(self);
        Seq::new(s.len(), |i: int| chan_name(s[i]))
    }

    fn names(&self) -> (r: Vec<&'static str>) {
        let mut out: Vec<&'static str> = Vec::new();
        push_if(&mut out, self.make, "Make");
        push_if(&mut out, self.send, "Send");
        push_if(&mut out, self.recv, "Recv");
        push_if(&mut out, self.close, "Close");
        push_if(&mut out, self.select, "Select");
        assert(texts_v(out@) =~= (*self).names_of());
        assert forall|i: int| 0 <= i < out@.len() implies (#[trigger] out@[i])@ == (
        *self).names_of()[i] by {
            assert(texts_v(out@)[i] == out@[i]@);
        }
        out
    }
}

impl OpNames for LockOps {
    open spec fn names_of(self) -> Seq<Seq<char>> {
        let s = lock_ops(self);
        Seq::new(s.len(), |i: int| lock_name(s[i]))
    }

    fn names(&self) -> (r: Vec<&'static str>) {
        let mut out: Vec<&'static str> = Vec::new();
        push_if(&mut out, self.lock, "Lock");
        push_if(&mut out, self.unlock, "Unlock");
        push_if(&mut out, self.rlock, "RLock");
        push_if(&mut out, self.runlock, "RUnlock");
        push_if(&mut out, self.deferred_unlock, "DeferredUnlock");
        push_if(&mut out, self.deferred_runlock, "DeferredRUnlock");
        assert(texts_v(out@) =~= (*self).names_of());
        assert forall|i: int| 0 <= i < out@.len() implies (#[trigger] out@[i])@ == (
        *self).names_of()[i] by {
            assert(texts_v(out@)[i] == out@[i]@);
        }
        out
    }
}

/// The first `n` texts with `sep` between them.
pub open spec fn joined_upto(v: Seq<Seq<char>>, sep: Seq<char>, n: nat) -> Seq<char>
    decreases n,
{
    if n == 0 {
        Seq::empty()
    } else if n == 1 {
        v[0]
    } else {
        joined_upto(v, sep, (n - 1) as nat) + sep + v[n - 1]
    }
}

/// What one location has, as text.
pub open spec fn place_text<S: OpNames>(item: (LocV, S)) -> Seq<char> {
    let names = item.1.names_of();
    loc_text(item.0) + ":["@ + joined_upto(names, ","@, names.len()) + "]"@
}

/// The texts of all locations.
pub open spec fn places<S: OpNames>(m: Map<LocV, S>) -> Seq<Seq<char>> {
    let items = listing::<Loc, S>(m);
    Seq::new(items.len(), |i: int| place_text(items[i]))
}

/// A map by location as text.
pub open spec fn loc_map_text<S: OpNames>(m: Map<LocV, S>) -> Seq<char> {
    joined_upto(places(m), " "@, places(m).len())
}

fn push_joined(out: &mut String, names: &Vec<&'static str>, Ghost(nv): Ghost<Seq<Seq<char>>>)
    requires
        names@.len() == nv.len(),
        forall|i: int| 0 <= i < names@.len() ==> (#[trigger] names@[i])@ == nv[i],
    ensures
        final(out)@ == old(out)@ + joined_upto(nv, ","@, nv.len()),
{
    let ghost head = out@;
    let mut i: usize = 0;
    assert(head + joined_upto(nv, ","@, 0) =~= head);
    while i < names.len()
        invariant
            i <= names@.len(),
            names@.len() == nv.len(),
            forall|i: int| 0 <= i < names@.len() ==> (#[trigger] names@[i])@ == nv[i],
            out@ == head + joined_upto(nv, ","@, i as nat),
        decreases names@.len() - i,
    {
        if i > 0 {
            out.append(",");
        }
        out.append(names[i]);
        i += 1;
        assert(out@ =~= head + joined_upto(nv, ","@, i as nat));
    }
}

fn push_loc_map<S: OpNames>(out: &mut String, m: &SortedMap<Loc, S>)
    requires
        m.wf(),
    ensures
        final(out)@ == old(out)@ + loc_map_text(m@),
{
    let ghost head = out@;
    let ghost pl = places(m@);
    let ghost items = m.items();
    proof {
        m.items_are_listing();
    }
    let n = m.len();
    let mut i: usize = 0;
    assert(head + joined_upto(pl, " "@, 0) =~= head);
    while i < n
        invariant
            i <= n,
            n == items.len(),
            items == m.items(),
            items == listing::<Loc, S>(m@),
            pl == places(m@),
            out@ == head + joined_upto(pl, " "@, i as nat),
        decreases n - i,
    {
        if i > 0 {
            out.append(" ");
        }
        let ghost o1 = out@;
        out.append(render_loc(m.key_at(i)).as_str());
        out.append(":[");
        let ops = *m.value_at(i);
        proof {
            S::view_self(ops);
            assert(pl[i as int] == place_text(items[i as int]));
        }
        let names = ops.names();
        push_joined(out, &names, Ghost(ops.names_of()));
        out.append("]");
        assert(out@ =~= o1 + pl[i as int]);
        i += 1;
        assert(out@ =~= head + joined_upto(pl, " "@, i as nat));
    }
}

/// How many goroutines are started, as text.
pub open spec fn spawns_text(s: Spawns) -> Seq<char> {
    match s {
        Spawns::Zero => "None"@,
        Spawns::Bounded => "Bounded"@,
        Spawns::Unbounded => "Unbounded"@,
    }
}

/// Effects as text.
pub open spec fn effects_text(e: EffectsV) -> Seq<char> {
    "{spawns:"@ + spawns_text(e.spawns) + " chan:{"@ + loc_map_text(e.chan) + "} locks:{"@
        + loc_map_text(e.lock) + "}}"@
}

fn push_effects(out: &mut String, e: &Effects)
    requires
        e.wf(),
    ensures
        final(out)@ == old(out)@ + effects_text(e@),
{
    let ghost head = out@;
    out.append("{spawns:");
    match e.spawns {
        Spawns::Zero => out.append("None"),
        Spawns::Bounded => out.append("Bounded"),
        Spawns::Unbounded => out.append("Unbounded"),
    }
    out.append(" chan:{");
    push_loc_map(out, &e.chan_ops);
    out.append("} locks:{");
    push_loc_map(out, &e.lock_ops);
    out.append("}}");
    assert(out@ =~= head + effects_text(e@));
}

/// Where a summary comes from, as text.
pub open spec fn provenance_text(p: Provenance) -> Seq<char> {
    match p {
        Provenance::Inferred => "Inferred"@,
        Provenance::Havoc => "Havoc"@,
        Provenance::Annotated => "Annotated"@,
    }
}

/// The line of one function.
pub open spec fn summary_line(name: Seq<char>, s: SummaryV) -> Seq<char> {
    name + " effects="@ + effects_text(s.effects) + " requires="@ + dec(s.requires_.len())
        + " ensures="@ + dec(s.ensures_.len()) + " provenance="@ + provenance_text(s.provenance)
}

/// The lines of the first `n` functions that pass the filter.
pub open spec fn summary_lines(
    p: &Program,
    ss: Seq<SummaryV>,
    filter: Option<Seq<char>>,
    n: nat,
) -> Seq<Seq<char>>
    decreases n,
{
    if n == 0 {
        Seq::empty()
    } else {
        let before = summary_lines(p, ss, filter, (n - 1) as nat);
        let name = p.name_of(FuncId((n - 1) as u32));
        if passes(name, filter) {
            before.push(summary_line(name, ss[n - 1]))
        } else {
            before
        }
    }
}

fn render_summary(name: &str, s: &Summary) -> (r: String)
    requires
        s.effects.wf(),
    ensures
        r@ == summary_line(name@, s@),
{
    let mut line = name.to_string();
    line.append(" effects=");
    push_effects(&mut line, &s.effects);
    line.append(" requires=");
    push_dec(&mut line, s.requires_.len() as u128);
    line.append(" ensures=");
    push_dec(&mut line, s.ensures_.len() as u128);
    line.append(" provenance=");
    match s.provenance {
        Provenance::Inferred => line.append("Inferred"),
        Provenance::Havoc => line.append("Havoc"),
        Provenance::Annotated => line.append("Annotated"),
    }
    assert(s@.requires_.len() == s.requires_@.len());
    assert(s@.ensures_.len() == s.ensures_@.len());
    line
}

/// The summaries, one line for each function whose name holds `filter`, sorted.
pub fn dump_summaries(p: &Program, a: &Analysis, filter: Option<&str>) -> (r: String)
    requires
        a.summaries@.len() <= u32::MAX,
        forall|i: int| 0 <= i < a.summaries@.len() ==> (#[trigger] a.summaries@[i]).effects.wf(),
    ensures
        r@ == sorted_text(
            summary_lines(
                p,
                a@.summaries,
                match filter {
                    Some(x) => Some(x@),
                    None => None,
                },
                a.summaries@.len(),
            ),
        ),
{
    let ghost fv = match filter {
        Some(x) => Some(x@),
        None => None,
    };
    let ghost sv = a@.summaries;
    let mut lines: Vec<String> = Vec::new();
    let mut i: usize = 0;
    assert(views(lines@) =~= Seq::<Seq<char>>::empty());
    while i < a.summaries.len()
        invariant
            i <= a.summaries@.len(),
            a.summaries@.len() <= u32::MAX,
            forall|i: int|
                0 <= i < a.summaries@.len() ==> (#[trigger] a.summaries@[i]).effects.wf(),
            fv == (match filter {
                Some(x) => Some(x@),
                None => None,
            }),
            sv == views(a.summaries@),
            views(lines@) == summary_lines(p, sv, fv, i as nat),
        decreases a.summaries@.len() - i,
    {
        let name = p.func_name(FuncId(i as u32));
        if keeps(name, filter) {
            let line = render_summary(name, &a.summaries[i]);
            let ghost before = lines@;
            let ghost lv = line@;
            lines.push(line);
            assert(sv[i as int] == a.summaries@[i as int]@);
            assert(views(lines@) =~= views(before).push(lv));
        }
        i += 1;
    }
    let s = sort_items(lines);
    assert(views(s@).len() == s@.len());
    render_lines(&s)
}

// ---- Findings ----

/// The line of one finding.
pub open spec fn finding_line(f: FindingV) -> Seq<char> {
    (match f.pos {
        Some(p) => p.file + ":"@ + dec(p.line as nat) + ":"@ + dec(p.col as nat),
        None => "-:-:-"@,
    }) + ": "@ + f.checker + ": "@ + f.message + " ["@ + f.func + "]"@
}

/// The lines of those of the first `n` findings whose function passes the filter, in order.
pub open spec fn finding_lines(fs: Seq<FindingV>, filter: Option<Seq<char>>, n: nat) -> Seq<
    Seq<char>,
>
    decreases n,
{
    if n == 0 {
        Seq::empty()
    } else {
        let before = finding_lines(fs, filter, (n - 1) as nat);
        if passes(fs[n - 1].func, filter) {
            before.push(finding_line(fs[n - 1]))
        } else {
            before
        }
    }
}

fn render_finding(f: &Finding) -> (r: String)
    ensures
        r@ == finding_line(f@),
{
    let mut line = match &f.pos {
        Some(p) => {
            let mut s = p.file.clone();
            s.append(":");
            push_dec(&mut s, p.line as u128);
            s.append(":");
            push_dec(&mut s, p.col as u128);
            s
        },
        None => "-:-:-".to_string(),
    };
    line.append(": ");
    line.append(f.checker.as_str());
    line.append(": ");
    line.append(f.message.as_str());
    line.append(" [");
    line.append(f.func.as_str());
    line.append("]");
    line
}

/// The findings, one line for each whose function's name holds `filter`, in the order of the
/// analysis.
pub fn dump_findings(a: &Analysis, filter: Option<&str>) -> (r: String)
    ensures
        ({
            let lines = finding_lines(
                a@.findings,
                match filter {
                    Some(x) => Some(x@),
                    None => None,
                },
                a.findings@.len(),
            );
            r@ == lines_upto(lines, lines.len())
        }),
{
    let ghost fv = match filter {
        Some(x) => Some(x@),
        None => None,
    };
    let ghost av = a@.findings;
    let mut lines: Vec<String> = Vec::new();
    let mut i: usize = 0;
    assert(views(lines@) =~= Seq::<Seq<char>>::empty());
    while i < a.findings.len()
        invariant
            i <= a.findings@.len(),
            fv == (match filter {
                Some(x) => Some(x@),
                None => None,
            }),
            av == a@.findings,
            views(lines@) == finding_lines(av, fv, i as nat),
        decreases a.findings@.len() - i,
    {
        let f = &a.findings[i];
        assert(av[i as int] == f@);
        if keeps(f.func.as_str(), filter) {
            let line = render_finding(f);
            let ghost before = lines@;
            let ghost lv = line@;
            lines.push(line);
            assert(views(lines@) =~= views(before).push(lv));
        }
        i += 1;
    }
    assert(views(lines@).len() == lines@.len());
    render_lines(&lines)
}

} // verus!
