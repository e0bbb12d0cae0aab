# abacas

A small computer algebra system: exact rational numbers, polynomials in one
variable with rational coefficients and degrees, and symbolic expressions
that are simplified with a context of variables and functions.

The library in `src/` is written in Verus. Every public operation states in
its contract what it computes, over a mathematical model:

- `rational.rs`: rationals as numerator/denominator pairs in lowest terms,
  and the field laws the proofs use.
- `number.rs`: `Number`, an exact rational backed by GMP (through `rug`);
  each arithmetic call is a small trusted wrapper whose contract is the exact
  rational result, and the text of a rational is read by the grammar that
  `rug` documents.
- `monomial.rs`, `polynomial.rs`: monomials and polynomials, viewed as
  sequences of (coefficient, degree) pairs sorted by decreasing degree.
  `polynomial/long_division.rs` says what long division computes for any
  rational degrees; `polynomial/division.rs` proves, for integer degrees,
  the division law (quotient times divisor plus remainder is the dividend,
  with a smaller remainder) and that quotient and remainder are unique;
  `polynomial/aligned.rs` carries the law over to degrees that lie an
  integer apart from the divisor's;
  `polynomial/product.rs` proves the product commutative and associative;
  `polynomial/euclid.rs` states Euclid's algorithm, and
  `polynomial/divisors.rs` and `polynomial/bezout.rs` prove what it computes
  for integer degrees: a common divisor that every common divisor divides,
  and its Bézout coefficients; the algorithm ends whenever the degrees span
  less than 2^64 - 1.
- `expr.rs`, `expr/simplify.rs`: expressions, their total order and the
  simplifier, specified as a function on expression values;
  `expr/settled.rs` and `expr/tidy.rs` state its laws (a zero factor makes
  a product zero, more steps change nothing, simplified sums and products
  hold at least two terms in order).
- `context.rs`, `context/simplifiers.rs`: symbols, contexts and the built-in
  functions.
- `render.rs`: the text of monomials, polynomials and expressions as pieces
  (text and numbers).
- `text.rs`: the string splitting that the parsers use.

`app/` is the command-line calculator around the library: argument handling,
the interactive prompt, syntax highlighting, and the floating-point
evaluation of expressions. `tests/` holds the tests of the library.
