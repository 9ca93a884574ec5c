# mir_public

A rustc wrapper that turns the MIR of a crate into an evidence graph
(GraphIR `graphir.v0.1`): one node per source line, data and ordering
dependences between nodes, memory-relevant operations recognised by rules,
and explicit holes where the rules cannot decide.

Layout:

- `src/` — the library, written in Verus and verified:
  - `text.rs`, `order.rs`: character-sequence primitives and the string
    order used for sorted sets;
  - `collect.rs`: the grammar of MIR places and block names, the def/use
    split of a statement, source lines, and the assembly of a line record;
  - `builder.rs`: grouping records into nodes, dependence edges, the whole
    graph;
  - `classify.rs`: the operation rules, their priority, and holes;
  - `settings.rs`, `driver.rs`, `callbacks.rs`: configuration, the
    wrapper's and the cargo subcommand's argument handling, and the
    callbacks' decisions;
  - `laws.rs`: properties of the library as a whole.
- `tests/`: tests on concrete values.
- `app/`: the program around the library: the rustc driver callbacks and
  the MIR walk, environment, files, JSON output, and the cargo subcommand.
