# access

Access tokens and access expressions, verified with Verus.

An access token is a label that a user holds, written unquoted (`[a-zA-Z0-9_\-.:/]+`) or
between double quotes, with `\"` and `\\` escaping a quote and a backslash. An access
expression combines tokens with `&` (all of) and `|` (any of), with parentheses to nest the
two; `A&B|C` is refused. The library reads and writes both, evaluates an expression against a
set of held tokens, and simplifies expressions.

## Layout

- `src/model.rs`: the mathematical values (`SpecToken`, `SpecExpr`) and what an expression
  means (`holds`).
- `src/types.rs`: the executable types and their views.
- `src/order.rs`, `src/sort.rs`: the canonical order and sorting by it.
- `src/lex.rs`, `src/expression.rs`, `src/tokens.rs`: the grammar as spec functions over
  characters, and the readers proved to follow it.
- `src/display.rs`, `src/problems.rs`: writing values and problem messages as text.
- `src/evaluate.rs`, `src/implied.rs`: evaluation, and a sound test of implication.
- `src/shape.rs`, `src/meaning.rs`, `src/redundant.rs`, `src/simplify.rs`: simplification,
  proved to give an expression in normal shape that means what the input means as
  simplification reads it (the empty expression inside a disjunction counts as absent), which
  is what the input means when it is well formed; the exact result is the spec function
  `simplification`.
- `src/mentions.rs`, `src/agreement.rs`: the tokens an expression mentions, and the exhaustive
  comparison of two expressions.
- `src/roundtrip.rs`, `src/parsed.rs`, `src/reorder.rs`: what reading gives, that written values
  read back, and that the operands of a junction may be written in any order.
- `app/`: `Display` and serde support through wrapper types.
