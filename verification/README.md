# sylvester

Gröbner bases over prime fields, written in Verus: every function in
`src/` is verified, and its `requires` / `ensures` contract, where it has
one, is proved. A few functions have no contract: reading or setting a
cancellation flag promises nothing another thread could not change.

Layout:

- `src/poly.rs`, `src/monomial.rs`, `src/field.rs`: the mathematical model.
  A polynomial is viewed as a list of `(coefficient, exponent vector)`
  terms, ascending in grevlex order; `coeff_at` reads its coefficient at a
  monomial. The ring laws of addition are public proof functions here.
- `src/product.rs`: the laws of the product (congruence in each factor,
  associativity, the identity) and of powers.
- `src/arithmetic.rs`, `src/exact.rs`: arithmetic under a budget (time,
  memory, cancellation), each result stated coefficient by coefficient.
- `src/compute/`: the classic signature engine, interreduction to the
  reduced basis, the row-reduction kernel of the F4 engine and its
  lead-divisor search, and the map from a run's budget to the caps of one
  verification.
- `src/cert/`: the certificate writers (version 1 text, version 2 binary),
  with division, S-pair representations, origin cofactors, and the
  lowering of one reduced row into the steps of a combination node.
- `src/certificate.rs`, `src/verify.rs`: certificate types and limits.

`tests/` exercises the library on concrete values.

Not here: the F4 driver around the kernel (pair selection, symbolic
preprocessing, monomial tables, the trace recorder), the multimodular
driver over the rationals (Chinese remaindering and rational
reconstruction), and the certificate verifier itself. `verifier_limits`
takes the verifier's default caps and record sizes as arguments for that
reason.
