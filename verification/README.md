# explainshell

A shell-command explainer as a verified Verus library: a byte-level shell
lexer, a parser that builds bashlex-shaped syntax trees, a manpage corpus
with name lookup, and a matcher that walks a tree and tells, for every
word, which option or argument of which manpage it is.

Layout:

- `src/text.rs`: string helpers, and the few calls into the standard
  library that the library trusts.
- `src/lexer.rs`: the token scanner, specified against byte-level models of
  operators, word boundaries and quote removal.
- `src/ast.rs`, `src/parser.rs`: the syntax tree, its model, and the
  recursive-descent parser; `parse` states the grammar's shape of its
  result, that every span lies in the input, that nodes come in source
  order, and that every word keeps the source's text.
- `src/model.rs`, `src/data.rs`: manpages, match results, and the corpus
  with its lookup order.
- `src/matcher.rs`, `src/engine.rs`: the walk as a state machine in spec
  code, the executable matcher proved to follow it, and the laws about its
  output (shell group first, command groups numbered in order, one group
  per command).
- `tests/`: scenario tests.
- `app/`: the WebAssembly bindings and the MessagePack/JSON conversions,
  which stay outside the verified library.
