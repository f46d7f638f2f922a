# linear-algebra-compiler

A small optimizer for scalar and matrix expressions built on egglog, with its
core verified by Verus.

- `src/ast.rs`: the core language (`CoreExpr`, declarations, bindings) and
  its mathematical view.
- `src/util.rs`: constructor names, and conversion of core expressions into
  egglog expressions.
- `src/termdag.rs`: term DAGs as extraction produces them, and their
  conversion into let-bindings (`termdag_to_bindings`).
- `src/termdag_laws.rs`: what those bindings mean: every name bound once, in
  dependency order, and the name `e` standing for the extracted term.
- `src/scheduler.rs`: a scheduler that fires at most `n` matches of a rule per
  iteration.
- `src/cost.rs`: a cost model under which a term costs its depth.
- `src/egglog_api.rs`, `src/index_map.rs`: the trusted interface to egglog and
  to `indexmap`.
- `src/strings.rs`: string equality and decimal rendering.
- `app/main.rs`: the command-line driver, which registers the scheduler and
  the cost model with egglog, runs a program, extracts the result and prints
  it as bindings.
