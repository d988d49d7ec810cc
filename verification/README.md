# sploosh

The front end of the Sploosh language, written in Verus: a UTF-8 lexer and a
recursive-descent parser that builds a typed syntax tree, with their
behaviour stated as contracts and proved.

## Layout

- `src/ast.rs` — spans, identifiers and the syntax tree; the laws of span joining.
- `src/text.rs` — UTF-8 boundary lemmas, substrings and string comparison.
- `src/lexer.rs` — tokens, keywords and `lex`. The lexer is specified byte by byte
  by `spec_lex`: a scan that at each position skips whitespace and plain `//`
  comments, or takes one step (a doc comment, a word, a number with its kind and
  suffix, a string or character literal with its escapes, or the longest operator
  spelling), and records each diagnostic with its message and span. `lex` returns
  exactly the tokens of that scan when it records no diagnostic, and otherwise
  exactly its diagnostics, in order. Besides, a successful lex yields tokens in
  source order, on character boundaries, and every byte outside the tokens is
  whitespace or line-comment text.
- `src/parser.rs` — `parse_program`. A failed parse reports at least one diagnostic,
  each inside the source; a successful one yields items in source order, without
  overlap, each inside the source; each item's declared name and attributes lie
  inside the item, and every such name spells the source text under its span. Internally every expression, block and path span
  is proved to lie within the tokens its parse consumed, every production that gives
  up does so with a new diagnostic or at the end of the tokens, and diagnostics are
  never retracted once reported, and the struct-literal restriction is restored
  after every production. An expression parse obeys the binding-power table: an
  unparenthesized binary node is spelled by an operator token between its operands,
  its left operand binds more tightly than its right power allows to follow (unless
  it is a pipe), its right operand at least as tightly as that power, the right side
  of `|>` is a pipe stage, and a `?` after a stage wraps the whole pipe; prefix
  operators bind more tightly than every infix one; an assignment to something that
  cannot be assigned is reported at the target, and a chained range at its second
  operator; a literal that nothing follows is parsed as that literal. Under the
  struct-literal restriction a path is never followed by a struct literal, and a
  `vec!` without `[` is reported at the token after `!`; a literal token parses to the literal it spells, `{}` to the empty block,
  a lone primitive type name to that primitive type; and error recovery resumes just
  after the next `;` or `}`. A source that does not lex is rejected with exactly the lexer's diagnostics,
  one whose first token after doc comments cannot open an item is rejected too; an empty source parses to an empty program.
- `tests/` — scenario tests for the lexer and the parser.
