# cas

A small computer-algebra system whose logic is verified with Verus.

## Layout

- `src/` — the verified library:
  - `expr.rs`, `collect.rs`, `ops.rs`, `expand.rs`, `display.rs`, `depth.rs`:
    symbolic expressions (`Expr`), their mathematical model (`SExpr`),
    flattening, constant folding, collection of like terms, arithmetic,
    expansion of products and the printed form.
  - `term.rs`, `polynomial.rs`, `sorted_map.rs`, `names.rs`: monomials and
    polynomials with expression coefficients, kept in a map whose keys stay
    in increasing order.
  - `matrix.rs`: matrices and determinants by expansion along the first row.
  - `print.rs`: two-dimensional layouts and the character canvas they are
    painted on.
  - `coef.rs`, `rational.rs`, `natural.rs`, `convert.rs`: the coefficient
    interface and its exact rational and natural-number implementations.
  - `syntax.rs`, `interpreter.rs`: the input language and its interpreter.
- `tests/` — tests of the library.
- `app/` — the interactive prompt.

## The input language

A line is empty, an assignment `name = expr`, or an expression, whose
simplified value is shown. Expressions are built from numerals (runs of
digits), names (a letter or `_` followed by letters, digits and `_`), calls
`f(a, b, ...)` and parentheses, with the infix operators `+` `-` (loosest),
`*` `/`, and `^` (tightest, grouping to the right). An unknown name stands
for a symbol of that name.

Functions: `ploy_div`, `pseudo_div`, `pseudo_mod` (quotient and remainder
in a symbol), `diff`, `degree`, `total_degree`, `leading_coef` and `expand`.
