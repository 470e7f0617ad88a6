# rustlex_codegen

The code generator of a table-driven lexer generator, together with the
runtime that the generated lexers execute, written in Verus.

- `src/def.rs` — the description of a lexer: name, token type, properties,
  actions, start conditions, callback and the deterministic automaton.
- `src/generate.rs` — the generator: from a description to the items of the
  generated lexer (struct, condition switches, constructor, callback methods,
  transition and accepting tables, and the iterator with its action match),
  each held as plain data.
- `src/input.rs` — chunked input, positions in it, reading a byte and
  gathering the bytes between two positions.
- `src/runtime.rs` — the lexer: table lookups, the longest-match scan of one
  lexeme with line/column tracking and UTF-8 continuation-byte skipping, the
  default action for illegal characters, start conditions, `yystr`, `yylloc`,
  input that arrives chunk by chunk (a scan that needs bytes not read yet
  answers `NeedInput` and changes nothing), and `next_step`, the decisions of
  the generated iterator's `next`: from what the last action or read gave
  back to the next command (read input, run an action or the callback,
  return a token, end, or fail).
- `src/laws.rs` — progress and end of input, at most one turn of the
  iterator's loop per byte, when a call of `next` returns a token or ends
  (and stays ended), action dispatch, the longest match on input of
  one-byte characters, and scans on partial input that agree with scans on
  the whole input.
- `src/utf8_laws.rs` — on UTF-8 input: the longest match over whole
  characters, lexemes on character boundaries, columns that count characters,
  and character lengths from leading bytes.
- `app/lib.rs` — a lexer over a reader: it runs `next_step` and does what it
  asks (reads the next chunk, runs the user's actions and callback), and
  stops on an illegal character when there is no callback.
