use groth16_toy::finite_field::Fe;
use groth16_toy::polynomial::Poly;
use groth16_toy::qap::Qap;
use groth16_toy::r1cs::R1cs;

#[test]
fn derives_abc_and_h_for_x_equals_4() {
    let r1cs = R1cs::circuit();
    let w = r1cs.build_witness(4);
    let qap = Qap::new(&r1cs, vec![Fe::from_u64(5), Fe::from_u64(7)]);

    let (a, b, c) = qap.build_abc(&r1cs, &w);
    let _h = qap.compute_h(&a, &b, &c);
}

#[test]
fn tampered_witness_leaves_a_remainder() {
    let r1cs = R1cs::circuit();
    let mut w = r1cs.build_witness(4);
    w[1] = w[1].add(&Fe::from_u64(1));
    let qap = Qap::new(&r1cs, vec![Fe::from_u64(5), Fe::from_u64(7)]);
    let (a, b, c) = qap.build_abc(&r1cs, &w);
    let numerator = a.mul(&b).sub(&c);
    let (_h, rem) = numerator.div_rem(&qap.t);
    assert!(rem.coeffs.iter().any(|x| !x.is_zero()));
}

#[test]
fn vanishing_polynomial_of_the_domain() {
    let r1cs = R1cs::circuit();
    let qap = Qap::new(&r1cs, vec![Fe::from_u64(5), Fe::from_u64(7)]);
    // (x - 5)(x - 7) = x^2 - 12x + 35
    assert_eq!(qap.t.coeffs, vec![Fe::from_u64(35), Fe::from_u64(12).neg(), Fe::from_u64(1)]);
    assert!(qap.t.eval(Fe::from_u64(5)).is_zero());
    assert!(qap.t.eval(Fe::from_u64(7)).is_zero());
}

#[test]
fn abc_take_the_row_values_on_the_domain_and_h_divides() {
    let r1cs = R1cs::circuit();
    let w = r1cs.build_witness(4);
    let qap = Qap::new(&r1cs, vec![Fe::from_u64(5), Fe::from_u64(7)]);
    let (a, b, c) = qap.build_abc(&r1cs, &w);
    // row 0: x * x = s1 -> 4, 4, 16; row 1: (9 + x + s1) * 1 = y -> 29, 1, 29
    assert_eq!(a.eval(Fe::from_u64(5)), Fe::from_u64(4));
    assert_eq!(b.eval(Fe::from_u64(5)), Fe::from_u64(4));
    assert_eq!(c.eval(Fe::from_u64(5)), Fe::from_u64(16));
    assert_eq!(a.eval(Fe::from_u64(7)), Fe::from_u64(29));
    assert_eq!(b.eval(Fe::from_u64(7)), Fe::from_u64(1));
    assert_eq!(c.eval(Fe::from_u64(7)), Fe::from_u64(29));
    let h = qap.compute_h(&a, &b, &c);
    let x = Fe::from_u64(123456);
    let lhs = a.eval(x).mul(&b.eval(x)).sub(&c.eval(x));
    assert_eq!(lhs, h.eval(x).mul(&qap.t.eval(x)));
    let cols = qap.column_polys(&r1cs.a, r1cs.num_vars);
    assert_eq!(cols.len(), 4);
    assert_eq!(cols[0].eval(Fe::from_u64(7)), Fe::from_u64(9));
    assert_eq!(cols[0].eval(Fe::from_u64(5)), Fe::zero());
}

#[test]
fn quotient_by_a_repeated_domain_point() {
    // domain (5, 5): t = (x - 5)^2, and a * b - c = (x - 5)^2 * 3
    let r1cs = R1cs::circuit();
    let qap = Qap::new(&r1cs, vec![Fe::from_u64(5), Fe::from_u64(5)]);
    let a = Poly::new(vec![Fe::from_u64(5).neg(), Fe::from_u64(1)]);
    let b = Poly::new(vec![Fe::from_u64(15).neg(), Fe::from_u64(3)]);
    let c = Poly::zero();
    let h = qap.compute_h(&a, &b, &c);
    assert_eq!(h.coeffs, vec![Fe::from_u64(3)]);
}

#[test]
fn quotient_by_any_divisor_with_nonzero_lead() {
    // t = 2x + 2 is not a vanishing polynomial of a domain; (x + 1) * 2 - 0 = t * 1
    let qap = Qap { domain: vec![], t: Poly::new(vec![Fe::from_u64(2), Fe::from_u64(2)]) };
    let a = Poly::new(vec![Fe::from_u64(1), Fe::from_u64(1)]);
    let b = Poly::new(vec![Fe::from_u64(2)]);
    let c = Poly::zero();
    let h = qap.compute_h(&a, &b, &c);
    assert_eq!(h.coeffs, vec![Fe::from_u64(1)]);
}
