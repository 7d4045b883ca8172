# goverify

A static analyzer for Go programs. It works on the SSA form of a program, encodes each function
as one SMT problem, and summarizes functions bottom-up along the call graph. Three checkers look
for dereferences of nil, for faults of indexing, slicing, division and conversion, and for
goroutines that block forever.

`src/` is the library, verified with Verus. It holds every decision: what is encoded, what is
asked, what follows from the answers, what is reported, what is cached and under which key. It
never calls a solver. An analysis is a function of a program and a table of answers. It lists the
questions that have no answer yet, and is run again once they are answered.

`app/` runs it: it asks solvers, reads and writes the cache, and catches checkers that panic.

## Where to start in `src/`

| what | modules |
| --- | --- |
| programs and types | `ir`, `types`, `graph`, `dfs`, `dom` |
| terms and queries | `term`, `query`, `term_codec` |
| the encoding of a function | `encode`, `ops`, `model` |
| summaries and effects | `summary`, `annotations`, `effects`, `prepass` |
| checkers | `checker`, `checkers`, `shared`, `rets`, `nil`, `bounds`, `leak`, `escape` |
| the engine | `answers`, `fixpoint`, `findings`, `contracts`, `faults`, `engine`, `dump` |
| the cache | `codec`, `records`, `digest`, `store`, `query_cache`, `scc_cache` |
| helpers | `order`, `sort`, `text` |
| what holds of the whole | `formed`, `meaning`, `asked`, `questions`, `sparing`, `silence`, `lattice`, `replay`, `alike`, `degrade` |

Public proof functions state what holds of more than one call. Among them:

- Where annotations and cached summaries fit the program, everything asked is well formed: every
  name declared once, every assertion a boolean of fitting sorts (`questions`).
- A block that the entry does not reach is reached in no model (`meaning`).
- What a solver does not confirm is never reported: if it confirms nothing, an analysis reports
  no error (`findings`, `silence`).
- The answers to questions that are skipped change nothing (`sparing`).
- What is extracted from the results of a call stands for that result in what the callee
  guarantees (`encode`).
- Effects cover every call, grow with what callees do, and only grow from round to round unless
  an analysis fails in one of them and not in another (`lattice`).
- A recursive component ends in a fixpoint or widened (`fixpoint`).
- A first run into an empty cache, a second one against what the first stored, and one without a
  cache report the same. The second asks nothing, and finds as many components as the first
  analysed (`replay`).
- Annotations that switch checkers off change nothing in an analysis (`alike`).
- A checker that fails while it looks for findings costs those of one function, and no others
  (`alike`). One that fails while clauses are inferred leaves the function without them in that
  round, and that is said (`degrade`).
- A conversion is held to the least and the greatest number of its destination (`bounds`).

## What is trusted

`String::push`, `String::from_utf8` and `blake3::hash`; each stands behind a declaration that says
what is claimed of it.
