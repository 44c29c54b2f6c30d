use groth16_toy::finite_field::Fe;
use groth16_toy::group_ops::{G1Point, G2Point};
use groth16_toy::polynomial::Poly;
use groth16_toy::prover::{prove, prove_with_blinding};
use groth16_toy::qap::Qap;
use groth16_toy::r1cs::R1cs;
use groth16_toy::trusted_setup::{Crs, ToxicWaste};
use ark_std::test_rng;

fn build_proof_inputs() -> (Crs, Vec<Fe>, Poly, Poly, Poly) {
    let r1cs = R1cs::circuit();
    let w = r1cs.build_witness(4);
    let qap = Qap::new(&r1cs, vec![Fe::from_u64(5), Fe::from_u64(7)]);
    let (a_poly, b_poly, c_poly) = qap.build_abc(&r1cs, &w);
    let h_poly = qap.compute_h(&a_poly, &b_poly, &c_poly);

    let mut rng = test_rng();
    let tw = ToxicWaste::sample(&mut rng);
    let crs = Crs::setup(&r1cs, &qap, &tw, &[0, 1]);

    (crs, w, a_poly, b_poly, h_poly)
}

#[test]
fn produces_three_distinct_nonzero_points() {
    let (crs, w, a_poly, b_poly, h_poly) = build_proof_inputs();
    let mut rng = test_rng();

    let proof = prove(&crs, &w, &a_poly, &b_poly, &h_poly, &mut rng);

    assert_ne!(proof.a, G1Point::identity());
    assert_ne!(proof.b, G2Point::identity());
    assert_ne!(proof.c, G1Point::identity());
}

#[test]
fn two_proofs_of_the_same_witness_differ() {
    let (crs, w, a_poly, b_poly, h_poly) = build_proof_inputs();
    let mut rng = test_rng();

    let proof1 = prove(&crs, &w, &a_poly, &b_poly, &h_poly, &mut rng);
    let proof2 = prove(&crs, &w, &a_poly, &b_poly, &h_poly, &mut rng);

    assert_ne!(proof1.a, proof2.a);
    assert_ne!(proof1.c, proof2.c);
}

#[test]
fn blinding_values_determine_the_proof() {
    let (crs, w, a_poly, b_poly, h_poly) = build_proof_inputs();
    let r = Fe::from_u64(11);
    let s = Fe::from_u64(13);
    let p1 = prove_with_blinding(&crs, &w, &a_poly, &b_poly, &h_poly, r, s);
    let p2 = prove_with_blinding(&crs, &w, &a_poly, &b_poly, &h_poly, r, s);
    assert_eq!(p1.a, p2.a);
    assert_eq!(p1.b, p2.b);
    assert_eq!(p1.c, p2.c);
    let p3 = prove_with_blinding(&crs, &w, &a_poly, &b_poly, &h_poly, r, Fe::from_u64(14));
    assert_eq!(p1.a, p3.a);
    assert_ne!(p1.b, p3.b);
}
