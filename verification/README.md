# argvtype

A static type-and-effect checker for Bash, written as a verified library.

- `src/` — the library, checked by Verus: the annotation language (`#@sig`,
  `#@bind`, ...), the Bash syntax tree read out of the tree-sitter grammar,
  its lowering to an expansion-aware HIR, control flow graphs, scopes and
  symbols, the checks (BT000, BT201, BT202, BT801, BT802), the `source` dependency graph
  (BT701, BT702), the command table and diagnostics rendered with miette.
  Each function states what it computes over a mathematical model of its
  values; the laws (name resolution, graph shapes, every block of a built
  graph reachable from its entry, statements kept in source order within a
  block, the depth-first order: each reachable block listed once, the entry
  first, and in a built graph every edge but a loop-back edge forward;
  BT702 only for files on a cycle, sourced files first otherwise; lowering reports only
  kinds it does not model, and each unmodeled statement that it keeps comes
  with its error) are proof functions or postconditions.
- `tests/` — tests of the library on concrete scripts.
- `app/` — the `argvtype` command: argument parsing, reading files and
  standard input, resolving paths on disk, JSON output.
