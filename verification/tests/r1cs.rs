use groth16_toy::finite_field::Fe;
use groth16_toy::r1cs::R1cs;

#[test]
fn witness_for_x_4_matches_workings_and_satisfies_constraints() {
    let r1cs = R1cs::circuit();
    let w = r1cs.build_witness(4);

    assert_eq!(w[0], Fe::from_u64(1)); // one
    assert_eq!(w[1], Fe::from_u64(29)); // y
    assert_eq!(w[2], Fe::from_u64(4)); // x
    assert_eq!(w[3], Fe::from_u64(16)); // s1

    assert!(r1cs.is_satisfied(&w).is_ok());
}

#[test]
fn tampered_witness_is_correctly_rejected() {
    let r1cs = R1cs::circuit();
    let mut w = r1cs.build_witness(4);
    w[1] = w[1].add(&Fe::from_u64(1)); // wrong y so it no longer equals x^2+x+9
    assert!(r1cs.is_satisfied(&w).is_err());
}

#[test]
fn mod13_witness_does_not_satisfy_real_field_r1cs() {
    let r1cs = R1cs::circuit();
    let w: Vec<Fe> = vec![
        Fe::from_u64(1),
        Fe::from_u64(3),
        Fe::from_u64(4),
        Fe::from_u64(3),
    ];
    let result = r1cs.is_satisfied(&w);
    println!("{:?}", result);
    assert!(result.is_err());
}

#[test]
fn failing_row_and_both_sides_are_reported() {
    let r1cs = R1cs::circuit();
    let mut w = r1cs.build_witness(4);
    w[1] = w[1].add(&Fe::from_u64(1));
    // row 0 (x * x = s1) still holds; row 1 fails with 29 * 1 against 30
    assert_eq!(r1cs.is_satisfied(&w), Err((1, Fe::from_u64(29), Fe::from_u64(30))));
    let w = vec![Fe::from_u64(1), Fe::from_u64(3), Fe::from_u64(4), Fe::from_u64(3)];
    assert_eq!(r1cs.is_satisfied(&w), Err((0, Fe::from_u64(16), Fe::from_u64(3))));
}

#[test]
fn circuit_shape_and_negative_inputs() {
    let r1cs = R1cs::circuit();
    assert_eq!(r1cs.num_constraints(), 2);
    assert_eq!(r1cs.num_vars, 4);
    let w = r1cs.build_witness(-3);
    // y = 9 - 3 + 9 = 15
    assert_eq!(w[1], Fe::from_u64(15));
    assert_eq!(w[2], Fe::from_u64(3).neg());
    assert_eq!(w[3], Fe::from_u64(9));
    assert!(r1cs.is_satisfied(&w).is_ok());
}
