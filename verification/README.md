# barustenberg (verified core)

Verified pieces of a PLONK verifier over BN254, written in Verus.

- `src/field.rs` — the `PrimeFieldElement` interface, and the scalar field
  `Fr` and base field `Fq` of BN254 implementing it, held as canonical
  64-bit limbs; arithmetic is done by `ark_bn254` behind small trusted
  wrappers whose contracts state the result modulo the field order.
- `src/evaluation.rs` — what a coefficient vector means (its value at a
  point, in a prime field) and the lemmas interpolation rests on.
- `src/interpolation.rs` — evaluation at a point and interpolation through
  `n` points, proved to pass through every point, to fail exactly on a
  repeated point, and to give the only such polynomial; with laws that it
  ignores the order of the points and is linear in the values.
- `src/polynomial.rs` — `Polynomial<F>`, generic over the field, whose size is always its number of
  coefficients, with its in-place arithmetic, resizing
  and indexing, each with an exact contract, and laws relating the
  operations on the coefficients themselves (addition commutes, adding
  then subtracting restores the coefficients, subtracting a copy leaves
  zeros, scalings compose and distribute over addition) and on the
  polynomial's values. Field elements are kept canonical, so equal values
  mean equal coefficients.
- `src/curve.rs` — affine G1 points and the curve-equation check.
- `src/plonk_verifier.rs` — the verifier state, the check of the opening
  proof elements, the gathering of multi-scalar-multiplication inputs and
  the room for the Pippenger table.
- `src/recursion.rs` — reading an inner proof's points back from public
  inputs in 256-bit arithmetic.
