# egs

An e-graph library, verified with Verus.

- `src/unionfind.rs`: union-find over ids with path halving; a ghost rank
  proves that parent chains end in a representative.
- `src/egraph.rs`: the e-graph: a memo from e-nodes to ids and the e-classes
  (both insertion-ordered `indexmap` maps), insertion of terms, union,
  rebuilding, e-matching, rewriting with rules, and cost-based extraction.
  Rebuilding is proved to leave the e-graph congruent (no canonical e-node
  in two e-classes) in every state the public operations reach, and, after
  unions, with canonical parent entries.
- `src/maps.rs`: the `indexmap` maps and sets the e-graph uses, modelled as
  sequences of entries.
- `src/pattern.rs`: patterns, rules, and reading rule texts.
- `src/sexp.rs`: symbolic expressions, read by the `symbolic_expressions`
  parser and printed as that crate prints them.
- `src/util.rs`: a duplicate check over e-nodes (`hashbrown`) and the
  indented layout of expressions.
- `app/main.rs`: a program that reads a term file and a rule file, rewrites,
  and prints the cheapest term found.
