//! A small Groth16 pipeline over BN254 for the circuit `y = x^2 + x + 9`:
//! field arithmetic, polynomials, R1CS, QAP, trusted setup, proving and
//! verification.

pub mod finite_field;
pub mod group_ops;
pub mod poly_math;
pub mod polynomial;
pub mod r1cs;
pub mod qap;
pub mod trusted_setup;
pub mod prover;
pub mod verify;
pub mod completeness;
