use groth16_toy::finite_field::Fe;
use groth16_toy::group_ops::{G1Point, G2Point};
use groth16_toy::qap::Qap;
use groth16_toy::r1cs::R1cs;
use groth16_toy::trusted_setup::{msm_g1, msm_g2, Crs, ToxicWaste};
use ark_std::test_rng;

#[test]
fn setup_produces_expected_structure() {
    let r1cs = R1cs::circuit();
    let qap = Qap::new(&r1cs, vec![Fe::from_u64(5), Fe::from_u64(7)]);
    let mut rng = test_rng();
    let tw = ToxicWaste::sample(&mut rng);
    let crs = Crs::setup(&r1cs, &qap, &tw, &[0, 1]);

    assert_eq!(crs.tau_powers_g1.len(), 2);
    assert_eq!(crs.tau_powers_g2.len(), 2);
    assert_eq!(crs.public_ic_terms.len(), 2);
    assert_eq!(crs.private_delta_terms.len(), 2);
    assert_eq!(crs.public_vars, vec![0, 1]);
    assert_eq!(crs.private_vars, vec![2, 3]);
}

#[test]
fn tau_powers_g1_start_at_generator() {
    let r1cs = R1cs::circuit();
    let qap = Qap::new(&r1cs, vec![Fe::from_u64(5), Fe::from_u64(7)]);
    let mut rng = test_rng();
    let tw = ToxicWaste::sample(&mut rng);
    let crs = Crs::setup(&r1cs, &qap, &tw, &[0, 1]);

    assert_eq!(crs.tau_powers_g1[0], G1Point::generator());
    assert_eq!(crs.tau_powers_g2[0], G2Point::generator());
}

#[test]
fn setup_with_chosen_secrets() {
    let r1cs = R1cs::circuit();
    let qap = Qap::new(&r1cs, vec![Fe::from_u64(5), Fe::from_u64(7)]);
    let tw = ToxicWaste {
        alpha: Fe::from_u64(2),
        beta: Fe::from_u64(3),
        gamma: Fe::from_u64(1),
        delta: Fe::from_u64(1),
        tau: Fe::from_u64(10),
    };
    let crs = Crs::setup(&r1cs, &qap, &tw, &[1]);
    let g1 = G1Point::generator();
    assert_eq!(crs.tau_powers_g1[1], g1.mul(&Fe::from_u64(10)));
    assert_eq!(crs.alpha_g1, g1.mul(&Fe::from_u64(2)));
    assert_eq!(crs.private_vars, vec![0, 2, 3]);
    // t(10) = (10 - 5)(10 - 7) = 15; h_over_delta_powers[1] = [10 * 15]
    assert_eq!(crs.h_over_delta_powers[1], g1.mul(&Fe::from_u64(150)));
    // variable 1 (y) appears only in C's second row: w_1(10) = (10 - 5)/(7 - 5) = 5/2
    let half = Fe::from_u64(2).inverse().unwrap();
    assert_eq!(crs.public_ic_terms[0], g1.mul(&Fe::from_u64(5).mul(&half)));
}

#[test]
fn multi_scalar_multiplication_sums_the_terms() {
    let g1 = G1Point::generator();
    let g2 = G2Point::generator();
    let bases1 = vec![g1, g1.mul(&Fe::from_u64(2)), g1];
    let coeffs = vec![Fe::from_u64(3), Fe::from_u64(4)];
    assert_eq!(msm_g1(&coeffs, &bases1), g1.mul(&Fe::from_u64(11)));
    assert_eq!(msm_g1(&[], &bases1), G1Point::identity());
    let bases2 = vec![g2, g2];
    assert_eq!(msm_g2(&coeffs, &bases2), g2.mul(&Fe::from_u64(7)));
}
