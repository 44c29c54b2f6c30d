use groth16_toy::finite_field::{field_ops, Fe};

#[test]
fn x_equals_4_and_c_equals_9() {
    let x = Fe::from_u64(4);
    let s1 = x.mul(&x);
    let y = s1.add(&x).add(&Fe::from_u64(9));

    assert_eq!(s1, Fe::from_u64(16));
    assert_eq!(y, Fe::from_u64(29));
}

#[test]
fn field_ops_gives_sum_and_square() {
    let (sum, product) = field_ops();
    assert_eq!(sum, Fe::from_u64(13));
    assert_eq!(product, Fe::from_u64(16));
    assert_eq!(sum.to_decimal(), "13");
    assert_eq!(product.to_decimal(), "16");
}

#[test]
fn subtraction_wraps_around_the_modulus() {
    let d = Fe::from_u64(3).sub(&Fe::from_u64(5));
    assert_eq!(
        d.to_decimal(),
        "21888242871839275222246405745257275088548364400416034343698204186575808495615"
    );
    assert_eq!(d.add(&Fe::from_u64(2)), Fe::zero());
    assert_eq!(Fe::from_u64(2).neg(), d);
}

#[test]
fn negative_integers_map_to_their_negation() {
    assert_eq!(Fe::from_i64(-7), Fe::from_u64(7).neg());
    assert_eq!(Fe::from_i64(7), Fe::from_u64(7));
    assert_eq!(Fe::from_i64(i64::MIN).add(&Fe::from_u64(1u64 << 63)), Fe::zero());
}

#[test]
fn inverse_of_nonzero_and_of_zero() {
    let a = Fe::from_u64(12345);
    let w = a.inverse().unwrap();
    assert_eq!(a.mul(&w), Fe::one());
    assert!(Fe::zero().inverse().is_none());
}

#[test]
fn zero_test_and_equality() {
    assert!(Fe::zero().is_zero());
    assert!(!Fe::one().is_zero());
    assert!(Fe::from_u64(9).equals(&Fe::from_u64(4).add(&Fe::from_u64(5))));
    assert!(!Fe::from_u64(9).equals(&Fe::from_u64(8)));
    assert_eq!(Fe::zero().to_decimal(), "");
}

#[test]
fn random_elements_differ() {
    let mut rng = ark_std::test_rng();
    let a = Fe::rand(&mut rng);
    let b = Fe::rand(&mut rng);
    assert_ne!(a, b);
}
