# icb

A code property graph for source projects: parsers for several languages
turn source text into node facts, a builder ingests them into a graph with
AST and call edges, and queries and analyses (callers, callees, unused
functions, call cycles, dead code, complexity, graph diffs, DOT export and
report data) read the graph.

Layout:

- `src/` — the library, written in Verus; its functions are proved against
  their contracts. Calls into petgraph, the tree-sitter grammars and a few
  std path and string functions go through small trusted wrappers, marked
  `external_body`, whose contracts are believed and documented beside them.
  The frontends' facts are proved to be those of the syntax tree that the
  grammar builds for the text, a tree that the library names but does not
  spell out.
- `tests/` — ordinary Rust tests run against the compiled library.
- `app/` — the command-line program: argument handling, file walking,
  caching, libclang access and HTML output, around the library.
