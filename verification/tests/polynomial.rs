use groth16_toy::finite_field::Fe;
use groth16_toy::polynomial::{distinct_values, distinct_xs, Poly};

#[test]
fn interpolation_passes_through_given_points() {
    let p = Poly::interpolate(&[
        (Fe::from_u64(5), Fe::from_u64(0)),
        (Fe::from_u64(7), Fe::from_u64(1)),
    ]);
    assert_eq!(p.eval(Fe::from_u64(5)), Fe::from_u64(0));
    assert_eq!(p.eval(Fe::from_u64(7)), Fe::from_u64(1));
    assert_eq!(p.degree(), 1);
}

#[test]
fn division_recovers_exact_quotient_with_zero_remainder() {
    let a = Poly::new(vec![Fe::from_u64(5).neg(), Fe::from_u64(1)]);
    let b = Poly::new(vec![Fe::from_u64(7).neg(), Fe::from_u64(1)]);
    let product = a.mul(&b);

    let (q, r) = product.div_rem(&a);
    assert_eq!(q.coeffs, b.coeffs);
    assert!(r.coeffs.iter().all(|c| c.is_zero()));
}

#[test]
fn new_trims_trailing_zeros() {
    let p = Poly::new(vec![Fe::from_u64(3), Fe::zero(), Fe::zero()]);
    assert_eq!(p.coeffs, vec![Fe::from_u64(3)]);
    assert_eq!(Poly::new(vec![]).coeffs, vec![Fe::zero()]);
    assert_eq!(Poly::zero().coeffs, vec![Fe::zero()]);
    assert_eq!(Poly::new(vec![Fe::zero(), Fe::zero()]).coeffs, vec![Fe::zero()]);
    assert_eq!(Poly::zero().degree(), 0);
}

#[test]
fn evaluation_uses_horner() {
    // 2 + 3x + x^2 at x = 4 is 30
    let p = Poly::new(vec![Fe::from_u64(2), Fe::from_u64(3), Fe::from_u64(1)]);
    assert_eq!(p.eval(Fe::from_u64(4)), Fe::from_u64(30));
    assert_eq!(p.degree(), 2);
}

#[test]
fn arithmetic_on_small_polynomials() {
    let p = Poly::new(vec![Fe::from_u64(1), Fe::from_u64(2)]); // 1 + 2x
    let q = Poly::new(vec![Fe::from_u64(3), Fe::zero(), Fe::from_u64(1)]); // 3 + x^2
    assert_eq!(p.add(&q).coeffs, vec![Fe::from_u64(4), Fe::from_u64(2), Fe::from_u64(1)]);
    assert_eq!(
        p.sub(&q).coeffs,
        vec![Fe::from_u64(2).neg(), Fe::from_u64(2), Fe::from_u64(1).neg()]
    );
    assert_eq!(
        p.mul(&q).coeffs,
        vec![Fe::from_u64(3), Fe::from_u64(6), Fe::from_u64(1), Fe::from_u64(2)]
    );
    assert_eq!(p.scale(Fe::from_u64(5)).coeffs, vec![Fe::from_u64(5), Fe::from_u64(10)]);
    assert_eq!(p.scale(Fe::zero()).coeffs, vec![Fe::zero()]);
    assert_eq!(p.sub(&p).coeffs, vec![Fe::zero()]);
}

#[test]
fn evaluation_is_a_ring_homomorphism() {
    let p = Poly::new(vec![Fe::from_u64(1), Fe::from_u64(2), Fe::from_u64(9)]);
    let q = Poly::new(vec![Fe::from_u64(4), Fe::from_u64(8).neg()]);
    for x in [0u64, 1, 2, 17, 1000] {
        let x = Fe::from_u64(x);
        assert_eq!(p.add(&q).eval(x), p.eval(x).add(&q.eval(x)));
        assert_eq!(p.sub(&q).eval(x), p.eval(x).sub(&q.eval(x)));
        assert_eq!(p.mul(&q).eval(x), p.eval(x).mul(&q.eval(x)));
        assert_eq!(p.scale(Fe::from_u64(3)).eval(x), p.eval(x).mul(&Fe::from_u64(3)));
    }
}

#[test]
fn division_with_a_remainder() {
    // x^3 + 2 = (x^2 + x + 1)(x - 1) + 3
    let num = Poly::new(vec![Fe::from_u64(2), Fe::zero(), Fe::zero(), Fe::from_u64(1)]);
    let den = Poly::new(vec![Fe::from_u64(1).neg(), Fe::from_u64(1)]);
    let (q, r) = num.div_rem(&den);
    assert_eq!(q.coeffs, vec![Fe::from_u64(1), Fe::from_u64(1), Fe::from_u64(1)]);
    assert_eq!(r.coeffs, vec![Fe::from_u64(3)]);
    // a lower degree numerator is its own remainder
    let (q, r) = den.div_rem(&num);
    assert_eq!(q.coeffs, vec![Fe::zero()]);
    assert_eq!(r.coeffs, den.coeffs);
}

#[test]
fn interpolation_through_three_points() {
    let pts = [
        (Fe::from_u64(1), Fe::from_u64(6)),
        (Fe::from_u64(2), Fe::from_u64(11)),
        (Fe::from_u64(3), Fe::from_u64(18)),
    ];
    let p = Poly::interpolate(&pts);
    // x^2 + 2x + 3
    assert_eq!(p.coeffs, vec![Fe::from_u64(3), Fe::from_u64(2), Fe::from_u64(1)]);
    assert_eq!(Poly::interpolate(&[]).coeffs, vec![Fe::zero()]);
}

#[test]
fn distinct_values_detects_repeats() {
    assert!(distinct_values(&[Fe::from_u64(5), Fe::from_u64(7), Fe::from_u64(9)]));
    assert!(!distinct_values(&[Fe::from_u64(5), Fe::from_u64(7), Fe::from_u64(5)]));
    assert!(distinct_values(&[]));
    let minus_one = Fe::from_u64(1).neg();
    assert!(!distinct_values(&[minus_one, Fe::from_i64(-1)]));
    assert!(distinct_xs(&[(Fe::from_u64(1), Fe::from_u64(2)), (Fe::from_u64(2), Fe::from_u64(2))]));
    assert!(!distinct_xs(&[(Fe::from_u64(3), Fe::from_u64(1)), (Fe::from_u64(3), Fe::from_u64(2))]));
}

#[test]
fn division_remainder_is_trimmed() {
    // (x^2 + 1) / (x + 1) = x - 1, remainder 2
    let n = Poly::new(vec![Fe::from_u64(1), Fe::from_u64(0), Fe::from_u64(1)]);
    let d = Poly::new(vec![Fe::from_u64(1), Fe::from_u64(1)]);
    let (q, r) = n.div_rem(&d);
    assert_eq!(q.coeffs, vec![Fe::from_u64(1).neg(), Fe::from_u64(1)]);
    assert_eq!(r.coeffs, vec![Fe::from_u64(2)]);
    // an exact division leaves the single coefficient zero
    let (q2, r2) = n.mul(&d).div_rem(&d);
    assert_eq!(q2.coeffs, n.coeffs);
    assert_eq!(r2.coeffs, vec![Fe::zero()]);
}

#[test]
fn subtraction_and_multiplication_laws() {
    let p = Poly::new(vec![Fe::from_u64(3), Fe::from_u64(0), Fe::from_u64(2)]);
    let q = Poly::new(vec![Fe::from_u64(8), Fe::from_u64(1)]);
    assert_eq!(p.sub(&p).coeffs, vec![Fe::zero()]);
    assert_eq!(p.sub(&q).add(&q).coeffs, p.coeffs);
    assert_eq!(p.mul(&q).degree(), p.degree() + q.degree());
}
