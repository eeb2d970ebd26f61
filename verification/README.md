# starry

LR parser construction and compiler middle-end building blocks, verified with Verus.

- `src/cfg.rs`, `src/grammar_text.rs`: context-free grammars and their text form
  (`A -> x y | z | ε`, one non-terminal per line).
- `src/analysis.rs`: NULLABLE, FIRST and FOLLOW sets as least fixed points.
- `src/lr/`: LR(0) and LR(1) items, closures and GOTO, the canonical collections,
  the LR(0), SLR(1), LR(1) and LALR(1) tables with their conflicts, validation,
  the table-driven parser, and the printed forms of all of these.
- `src/semantic/`: dependency ordering, three-address code, quadruples with
  common-subexpression elimination, triples, basic blocks and block DAGs.
- `src/laws.rs`: properties that relate several operations.
- `app/`: writing tables, item sets and intermediate code to standard output.

`tests/` runs the library on concrete grammars and instruction lists.
