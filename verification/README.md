# grammex

A generic graph rewriting engine with game-constraint semantics for
procedural generation, written in Verus: the graph store, the subgraph
matcher, rule application, rule selection, the structural constraints and
the rewriting loop are verified against contracts stated over a
mathematical model of the graph.

## Layout

- `src/graph.rs`: the arena graph and its model `GraphView` (one entry per
  node or edge slot ever allocated, `None` once removed).
- `src/pattern.rs`: patterns and the backtracking matcher; `find_matches`
  lists exactly the matches, in lexicographic order.
- `src/rule.rs`, `src/rewriter.rs`: rules and their application
  (`apply_rule`, described by the spec function `rewritten`), and the
  `Rewriter` with its step, observed step and full rewrite.
- `src/strategy.rs`: weighted and non-overlapping selection, and the
  `RandomSource` trait through which randomness enters.
- `src/constraint.rs`: reachability, lock-and-key, cycle rank and
  acyclicity, with the breadth-first search they share.
- `src/demo.rs`: the dungeon and quest grammars of the interactive demo,
  the reading of its settings, and the bookkeeping of a stepped run.
- `app/lib.rs`: the WebAssembly bindings of the demo: layout, JSON output.
- `tests/`: tests run against the compiled library.
