# groth16_toy

A small, verified Groth16 pipeline over BN254 for the circuit
`y = x^2 + x + 9`, written in Verus.

- `src/finite_field.rs`: elements of the scalar field `Fr` as canonical limbs;
  arithmetic through `ark_ff`.
- `src/poly_math.rs`: polynomials as integer coefficient sequences and the
  facts about their evaluation modulo the field order (homomorphism laws,
  Lagrange interpolation, synthetic division, root counting).
- `src/polynomial.rs`: dense polynomials over `Fr` (trimming, evaluation,
  arithmetic, interpolation, long division).
- `src/r1cs.rs`: the constraint system of the circuit and its witness.
- `src/qap.rs`: the quadratic arithmetic program, with the proofs that it is
  satisfied exactly when the constraint system is.
- `src/group_ops.rs`: points of `G1`, `G2` and the pairing target group, with
  the group operations and the pairing done by `ark_ec`.
- `src/trusted_setup.rs`, `src/prover.rs`, `src/verify.rs`: the common
  reference string, proving and verification.
- `src/completeness.rs`: the proof that an honestly made proof passes the
  verification equation.
- `app/`: printing front ends.
