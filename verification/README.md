# colourful

A verified interpreter for Colourful, a combinatory-logic language in which
colours are the combinators: Yellow is I, Red is K, Blue is S, and the
secondary colours (Orange, Green, Purple, Pink, Cyan, Violet, Lime, Teal) are
fixed applications of the primary ones.

Layout:

- `src/colour.rs`: the colours, their names, and reading a colour from a word.
- `src/expr.rs`: expressions, the expression of a colour block and of a row of
  blocks (read right to left), and reading blocks back off an expression.
- `src/eval.rs`: the evaluation rules, evaluation, and their laws (identity,
  constant, substitution, idempotence).
- `src/syntax.rs`: the `S`/`K`/`I` notation (parser and printer, proved
  inverse) and the Colourful notation.
- `src/text.rs`: finding colour names in free text, and cutting text into the
  chunks in which it is displayed.
- `app/main.rs`: the web playground (Leptos), which calls the library.
- `tests/`: tests on concrete values.
