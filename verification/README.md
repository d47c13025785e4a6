# axiomatic

A lexer and a parser for a small notation of first-order axioms and schemas,
such as `schema IND: P(0) /\ forall n: (P(n) -> P(S(n))) -> forall n: P(n)`,
verified with Verus.

- `src/text.rs`: character classes, decimal rendering, and the few calls into std
  that the library trusts.
- `src/error.rs`: positions, errors, and the rendering of an error under its
  source line.
- `src/lexer.rs`: tokens and the lexer, specified by a function `lex` from
  characters to tokens and errors.
- `src/lexer_laws.rs`: what holds of every lexed text.
- `src/lexer_round_trip.rs`: the text of a token, lexed alone, gives the token back.
- `src/lexer_join.rs`: two texts joined by a space keep their tokens.
- `src/parser.rs`: the syntax tree and the recursive-descent parser, specified
  by a function `parse_tokens` over token models.
- `src/parser_laws.rs`: what holds of every parse.
- `app/main.rs`: the interactive shell (`:lexer <text>`, `:exit`).
- `tests/`: tests run against the compiled library.
