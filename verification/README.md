# semantx_trace

Verified core of SemantxTrace, a behavioural-trace toolkit for desktop
applications: it records named domain actions, folds them into canonical
scenarios, mines workflows and process models from them, and checks oracle
rules against sessions.

- `src/` — the library, verified with Verus. Every public function states
  what it returns over mathematical models (`Seq`, `Map`, spec functions),
  and the library's laws are public proof functions.
  - `event`, `session`, `scenario`, `ids`, `json`, `outcome`, `policy` —
    the value objects.
  - `normalizer` — value and temporal abstraction and scenario folding.
  - `oracle` — rules, composition, the engine and the HTML report.
  - `graph` — the action graph (over `petgraph`), its exports, the
    heuristics miner, PrefixSpan, workflow counts, and the inductive miner
    with its process trees.
  - `analysis`, `alignment`, `similarity` — the command-line tool's
    counting, grouping, event labels and dimension overlaps.
- `tests/` — the test suite, run against the compiled library.
- `app/` — the `trace` command-line program: argument parsing, JSONL I/O,
  serde forms of the library's types, and the floating-point scores.
