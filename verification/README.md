# flowgraph

Flowcharts of structured programs, drawn as directed graphs and verified with
[Verus](https://github.com/verus-lang/verus).

`from_ast` takes a syntax tree and gives a `petgraph` stable graph: `Begin` is node 0, `End` is
node 1, statements are `Node`s with at most one way on, conditions are `Choice`s with at most one
edge per answer.

- `src/` is the verified library. `model`, `flow` and `tidy` say what the result is; `draw`,
  `simplify` and `graph` compute it. `laws` holds what is proved of every flowchart: which nodes it
  has, that control goes in it as in the draft from which the joints are taken out, and how many
  edges leave a node. `additions`, `entries` and `widening` hold what drawing a statement adds to a
  draft, `wording` which texts a flowchart shows. `structured` proves that programs without `goto`,
  whose case labels mark one statement each, have a flowchart that loses no edge, `plain` that
  without switches every node of it leads to `End`, and `regrouping` that a block in a block changes
  only the numbers of the nodes, where both trees have a flowchart.
- `store` and `scopes` are the only places where outside code is taken at its word: `petgraph`'s
  graph and `hash_chain`'s chain of maps.
- `tests/` runs the library on small programs.
- `app/` is ordinary Rust around it, for trees of shared cells and for errors that quote the text.
