# sylo

A lexer and LR parser generator whose core is verified with Verus.

`src/` is the verified library:

- `charset`, `regex`, `unicode`: byte sets, regular expressions over bytes
  built by simplifying constructors, with Brzozowski derivatives, and
  expressions for ranges of characters in UTF-8.
- `dfa`, `lex`, `scanning`: automata built from derivatives and minimized,
  the longest-match lexer, and its flat scanning table.
- `cfg`, `first`, `lr0`, `lr1`, `lalr1`: grammars and their derivations,
  FIRST sets, and the LR(0), LR(1) and LALR(1) automata.
- `syn`, `parser`: LR(1) tables, with precedence-based conflict
  resolution, and the table-driven parser.
- `cst`, `analyzer`, `ir`: concrete syntax trees, a lexer and parser put
  together, and the intermediate form that code writers print.
- `c_source`, `rust_source`, `rust_parser_source`, `dot`: the C and Rust
  source of scanners and parsers, and the Graphviz drawings of an
  expression and of an automaton, each stated as the exact text it
  produces.

`app/` holds what is output around the library: the writers' adapters to
`fmt::Write`, Graphviz drawings of LR item-set automata (labelled through
the caller's `Display` names), and the loop that builds a syntax tree from
a parse, one verified step at a time.

`tests/` runs the library on concrete grammars and expressions.
