use powdr::field::{GoldilocksField, P};

fn fe(v: u64) -> GoldilocksField {
    GoldilocksField::from_u64(v)
}

#[test]
fn arithmetic_wraps_at_the_modulus() {
    assert_eq!(fe(P - 1).add(fe(2)), fe(1));
    assert_eq!(fe(3).sub(fe(5)), fe(P - 2));
    assert_eq!(fe(1 << 32).mul(fe(1 << 32)), fe((1u64 << 32) - 1));
    assert_eq!(fe(0).neg(), fe(0));
    assert_eq!(fe(7).neg(), fe(P - 7));
    assert_eq!(GoldilocksField::from_u64(P), fe(0));
    assert_eq!(GoldilocksField::from_i64(-1), GoldilocksField::minus_one());
    assert_eq!(GoldilocksField::from_i64(i64::MIN), fe(P - (1u64 << 63)));
}

#[test]
fn division_is_multiplication_by_the_inverse() {
    let q = fe(400).div(fe(14));
    assert_eq!(q.mul(fe(14)), fe(400));
    assert_eq!(fe(1).div(fe(2)).to_integer(), (P + 1) / 2);
    assert_eq!(fe(9).div(fe(3)), fe(3));
}

#[test]
fn text_of_field_elements() {
    assert_eq!(fe(16).to_string(), "16");
    assert_eq!(fe(P - 5).to_string(), "-5");
    assert_eq!(fe((P - 1) / 2).to_string(), ((P - 1) / 2).to_string());
    assert_eq!(fe((P - 1) / 2 + 1).to_string(), format!("-{}", (P - 1) / 2));
    assert!(GoldilocksField::zero().is_zero());
    assert!(GoldilocksField::one().is_one());
    assert!(GoldilocksField::minus_one().is_minus_one());
    assert!(fe(3).lt(fe(4)));
}
