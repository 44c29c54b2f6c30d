use ark_bn254::{Bn254, Fr, G1Projective, G2Projective};
use ark_ec::pairing::Pairing;
use ark_ec::Group;
use groth16_toy::finite_field::Fe;
use groth16_toy::group_ops::{group_ops, G1Point, G2Point, Gt};

#[test]
fn scalar_mult_is_repeated_addition() {
    let g1 = G1Point::generator();
    let via_scalar = g1.mul(&Fe::from_u64(3));
    let via_addition = g1.add(&g1).add(&g1);
    assert_eq!(via_scalar, via_addition);
}

#[test]
fn g1_and_g2_are_different_groups() {
    let g1 = G1Point::generator();
    let g2 = G2Point::generator();
    assert_ne!(g1, G1Point::identity());
    assert_ne!(g2, G2Point::identity());
}

#[test]
fn bilinearity_holds_under_real_pairing() {
    let g1 = G1Projective::generator();
    let g2 = G2Projective::generator();
    let a = Fr::from(6u64);
    let b = Fr::from(7u64);

    let lhs = Bn254::pairing(g1 * a, g2 * b);
    let rhs = Bn254::pairing(g1, g2) * (a * b);
    assert_eq!(lhs.0, rhs.0);
}

#[test]
fn library_pairing_is_bilinear() {
    let g1 = G1Point::generator();
    let g2 = G2Point::generator();
    let a = Fe::from_u64(6);
    let b = Fe::from_u64(7);
    let lhs = Gt::pairing(&g1.mul(&a), &g2.mul(&b));
    let rhs = Gt::pairing(&g1.mul(&a.mul(&b)), &g2);
    assert!(lhs.equals(&rhs));
    let other = Gt::pairing(&g1, &g2);
    assert!(!lhs.equals(&other));
    // e(g1, g2) + e(g1, g2) = e(2 g1, g2)
    let doubled = other.add(&other);
    assert!(doubled.equals(&Gt::pairing(&g1.add(&g1), &g2)));
}

#[test]
fn group_ops_gives_four_times_and_five_times_the_generator() {
    let (x_g1, sum) = group_ops();
    let g1 = G1Point::generator();
    assert_eq!(x_g1, g1.add(&g1).add(&g1).add(&g1));
    assert_eq!(sum, g1.mul(&Fe::from_u64(5)));
}

#[test]
fn identity_is_neutral_and_subtraction_undoes_addition() {
    let g1 = G1Point::generator();
    let o = G1Point::identity();
    assert_eq!(g1.add(&o), g1);
    assert_eq!(g1.add(&g1).sub(&g1), g1);
    assert_eq!(g1.sub(&g1), o);
    assert_eq!(g1.mul(&Fe::zero()), o);
    let g2 = G2Point::generator();
    assert_eq!(g2.add(&G2Point::identity()), g2);
    assert_eq!(g2.mul(&Fe::from_u64(2)), g2.add(&g2));
}
