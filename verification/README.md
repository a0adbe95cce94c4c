# easter_egg

Verified building blocks of a colored e-graph library: the union-find
structures over e-class ids, pattern variables and substitutions, the pattern
and multipattern syntax, the compiler from patterns to matching programs, the
bookkeeping of search results and of the back-off rule scheduler, and the
per-color classes of assumed equalities.

Layout:

- `src/` — the library, every function with a contract proved by Verus:
  - `unionfind.rs`, `keyed_union_find.rs`, `colored_union_find.rs`: union-find
    over dense ids, over arbitrary `Id` keys, and the colored variant;
  - `subst.rs`: pattern variables and substitutions;
  - `pattern.rs`, `multipattern.rs`: s-expression patterns and multipatterns,
    their parsers and variables;
  - `machine.rs`: compiling patterns and multipatterns into programs of
    matching instructions;
  - `matching.rs`: what a program of the matching machine computes on an
    e-graph without colors, step by step;
  - `egraph.rs`: the (uncolored) e-graph: hash-consed adding of e-nodes and
    expressions, lookup, union, `rebuild`, which restores congruence
    closure and hash-consing, pattern search, and running a compiled
    program (every match it has, up to a limit);
  - `search_matches.rs`, `run.rs`: search results, rule scheduling, and the
    run loop's decisions (limits, saturation) as a step function, and the
    grouping of ids that every case of a case split agrees on;
  - `colors.rs`, `util.rs`: colors and small utilities;
  - `bimap_support.rs`, `index_support.rs`: what the library relies on of the
    `bimap` and `indexmap` collections.
- `tests/` — tests run against the compiled library.
- `app/` — process-level pieces: the global bind limit, error types that
  implement `std::error::Error`, the repeated-rule warning, and the run loop
  (`runner.rs`), which does the work that `run_step` asks for.
