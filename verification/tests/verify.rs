use groth16_toy::finite_field::Fe;
use groth16_toy::prover::{prove, prove_with_blinding, Proof};
use groth16_toy::qap::Qap;
use groth16_toy::r1cs::R1cs;
use groth16_toy::trusted_setup::{Crs, ToxicWaste};
use groth16_toy::verify::verify;
use ark_std::test_rng;

fn build_proof_for_x(x: i64) -> (Crs, Proof, Vec<Fe>) {
    let r1cs = R1cs::circuit();
    let w = r1cs.build_witness(x);
    let qap = Qap::new(&r1cs, vec![Fe::from_u64(5), Fe::from_u64(7)]);
    let (a_poly, b_poly, c_poly) = qap.build_abc(&r1cs, &w);
    let h_poly = qap.compute_h(&a_poly, &b_poly, &c_poly);

    let mut rng = test_rng();
    let tw = ToxicWaste::sample(&mut rng);
    let crs = Crs::setup(&r1cs, &qap, &tw, &[0, 1]);
    let proof = prove(&crs, &w, &a_poly, &b_poly, &h_poly, &mut rng);

    let public_values = vec![w[0], w[1]];
    (crs, proof, public_values)
}

#[test]
fn verifies_valid_proof_for_worked_witness() {
    let (crs, proof, public_values) = build_proof_for_x(4);
    assert!(verify(&crs, &proof, &public_values));
}

#[test]
fn rejects_wrong_public_input() {
    let (crs, proof, _) = build_proof_for_x(4);
    let wrong = vec![Fe::from_u64(1), Fe::from_u64(999)];
    assert!(!verify(&crs, &proof, &wrong));
}

#[test]
fn rejects_tampered_proof() {
    let (crs, mut proof, public_values) = build_proof_for_x(4);
    proof.a = proof.a.add(&crs.alpha_g1);
    assert!(!verify(&crs, &proof, &public_values));
}

#[test]
fn end_to_end_across_several_witnesses() {
    for x in [0i64, 1, 4, 10, 25] {
        let (crs, proof, public_values) = build_proof_for_x(x);
        assert!(verify(&crs, &proof, &public_values), "failed for x={}", x);
    }
}

#[test]
fn any_blinding_verifies_with_fixed_secrets() {
    let r1cs = R1cs::circuit();
    let w = r1cs.build_witness(-2);
    let qap = Qap::new(&r1cs, vec![Fe::from_u64(1), Fe::from_u64(2)]);
    let (a_poly, b_poly, c_poly) = qap.build_abc(&r1cs, &w);
    let h_poly = qap.compute_h(&a_poly, &b_poly, &c_poly);
    let tw = ToxicWaste {
        alpha: Fe::from_u64(3),
        beta: Fe::from_u64(5),
        gamma: Fe::from_u64(7),
        delta: Fe::from_u64(11),
        tau: Fe::from_u64(13),
    };
    let crs = Crs::setup(&r1cs, &qap, &tw, &[0, 1]);
    for (r, s) in [(0u64, 0u64), (1, 2), (17, 19)] {
        let proof = prove_with_blinding(&crs, &w, &a_poly, &b_poly, &h_poly, Fe::from_u64(r), Fe::from_u64(s));
        assert!(verify(&crs, &proof, &[w[0], w[1]]));
        assert!(!verify(&crs, &proof, &[w[0], w[1].add(&Fe::one())]));
    }
}

#[test]
fn honest_proof_verifies_without_constraints() {
    let r1cs = R1cs { a: vec![], b: vec![], c: vec![], num_vars: 4 };
    let w = vec![Fe::from_u64(1), Fe::from_u64(2), Fe::from_u64(3), Fe::from_u64(4)];
    let qap = Qap::new(&r1cs, vec![]);
    let (a_poly, b_poly, c_poly) = qap.build_abc(&r1cs, &w);
    let h_poly = qap.compute_h(&a_poly, &b_poly, &c_poly);
    let mut rng = test_rng();
    let tw = ToxicWaste::sample(&mut rng);
    let crs = Crs::setup(&r1cs, &qap, &tw, &[0, 1]);
    let proof = prove(&crs, &w, &a_poly, &b_poly, &h_poly, &mut rng);
    assert!(verify(&crs, &proof, &[w[0], w[1]]));
}
