use powdr::affine::AffineExpression;
use powdr::eval::{Constraint, EvalError, EvalValue, IncompleteCause};
use powdr::field::GoldilocksField;
use powdr::range::{RangeConstraint, RangeConstraintMap};

fn fe(v: i64) -> GoldilocksField {
    GoldilocksField::from_i64(v)
}

fn convert(input: Vec<i64>) -> Vec<(u64, GoldilocksField)> {
    input
        .iter()
        .enumerate()
        .map(|(i, x)| (i as u64, fe(*x)))
        .collect()
}

fn var(k: u64) -> AffineExpression {
    AffineExpression::from_variable_id(k)
}

fn constant(v: i64) -> AffineExpression {
    AffineExpression::from_value(fe(v))
}

fn same(a: &AffineExpression, b: &AffineExpression) -> bool {
    a.eq(b)
}

fn constraints(entries: Vec<(u64, RangeConstraint)>) -> RangeConstraintMap {
    let mut m = RangeConstraintMap::new();
    for (k, c) in entries {
        m.insert(k, c);
    }
    m
}

#[test]
fn test_affine_assign() {
    let mut a = AffineExpression::new(convert(vec![2, 3]), fe(3));
    a.assign(0, fe(3));
    assert!(same(&a, &AffineExpression::new(convert(vec![0, 3]), fe(9))));

    // Now, the expression is 3b + 9. It should be able to solve for b
    // such that 3b + 9 = 0.
    let updates = a.solve().unwrap();
    assert_eq!(updates.constraints, vec![(1, Constraint::Assignment(fe(-3)))]);
    a.assign(1, fe(-3));
    assert_eq!(a.constant_value().unwrap(), fe(0));
}

#[test]
fn test_affine_neg() {
    let a = AffineExpression::new(convert(vec![1, 0, 2]), fe(9));
    assert!(same(
        &a.neg(),
        &AffineExpression::new(
            vec![
                (0, fe(0).sub(fe(1))),
                (1, fe(0)),
                (2, fe(0).sub(fe(2))),
            ],
            fe(0).sub(fe(9)),
        ),
    ));
}

#[test]
fn test_affine_add() {
    let a = AffineExpression::new(convert(vec![1, 2]), fe(3));
    let b = AffineExpression::new(convert(vec![11]), fe(13));
    assert!(same(
        &a.clone().add(b.clone()),
        &AffineExpression::new(convert(vec![12, 2]), fe(16)),
    ));
    assert!(same(&b.clone().add(a.clone()), &a.add(b)));
}

#[test]
fn test_affine_add_with_ref_key() {
    // Variables are numbered: 0, 1 and 2 stand for three named variables.
    let a = var(0).add(var(1).mul(fe(2))).add(constant(3));
    let b = var(0).mul(fe(11)).add(constant(13));
    let result = a.clone().add(b.clone());
    assert_eq!(&result.to_string(), "12 * 0 + 2 * 1 + 16");
    assert!(same(&b.clone().add(a.clone()), &a.add(b)));
}

#[test]
fn test_affine_clean() {
    let a = AffineExpression::new(convert(vec![1, 2]), fe(3));
    let b = AffineExpression::new(convert(vec![11, 80]), fe(13));
    assert!(same(
        &a.clone().mul(fe(3)).add(b.clone()),
        &AffineExpression::new(convert(vec![14, 86]), fe(22)),
    ));
    assert!(same(&a.mul(fe(0)), &AffineExpression::from_value(fe(0))));
    assert!(same(&b.mul(fe(0)), &AffineExpression::from_value(fe(0))));
}

#[test]
fn test_affine_clean_long() {
    let a = AffineExpression::new(convert(vec![1, 2, 0, 4, 0, 9, 8]), fe(3));
    let b = AffineExpression::new(convert(vec![11, 12, 0, 14, 15, 19, -8]), fe(1));
    assert_eq!(
        a.clone().add(b.clone()).nonzero_coefficients(),
        vec![(0, fe(12)), (1, fe(14)), (3, fe(18)), (4, fe(15)), (5, fe(28))]
    );
    assert!(same(&a.mul(fe(0)), &AffineExpression::from_value(fe(0))));
    assert!(same(&b.mul(fe(0)), &AffineExpression::from_value(fe(0))));
}

#[test]
fn equality() {
    let a = AffineExpression::new(convert(vec![0, 1]), fe(3)).clean();
    let b = AffineExpression::new(convert(vec![1, 0]), fe(13)).clean();
    assert!(same(&a.clone().add(b.clone()), &b.clone().add(a.clone())));
}

#[test]
fn derive_constraints() {
    let expr = var(1).sub(var(2).mul(fe(16))).sub(var(3));
    let known_constraints = constraints(vec![
        (2, RangeConstraint::from_max_bit(7)),
        (3, RangeConstraint::from_max_bit(3)),
    ]);
    assert_eq!(
        expr.solve_with_range_constraints(&known_constraints).unwrap(),
        EvalValue::incomplete_with_constraints(
            vec![(1, Constraint::RangeConstraint(RangeConstraint::from_max_bit(11)))],
            IncompleteCause::NotConcrete
        )
    );
    assert_eq!(
        expr.neg().solve_with_range_constraints(&known_constraints).unwrap(),
        EvalValue::incomplete_with_constraints(
            vec![(1, Constraint::RangeConstraint(RangeConstraint::from_max_bit(11)))],
            IncompleteCause::NotConcrete
        )
    );

    // Replace factor 16 by 32.
    let expr = var(1).sub(var(2).mul(fe(32))).sub(var(3));
    assert_eq!(
        expr.solve_with_range_constraints(&known_constraints).unwrap(),
        EvalValue::incomplete_with_constraints(
            vec![(1, Constraint::RangeConstraint(RangeConstraint::from_mask(0x1fef)))],
            IncompleteCause::NotConcrete
        )
    );

    // Replace factor 16 by 8.
    let expr = var(1).sub(var(2).mul(fe(8))).sub(var(3));
    assert_eq!(
        expr.solve_with_range_constraints(&known_constraints),
        Ok(EvalValue::incomplete_with_constraints(
            vec![(
                1,
                Constraint::RangeConstraint(RangeConstraint::from_range(
                    fe(0),
                    fe(0xff * 8 + 0xf)
                ))
            )],
            IncompleteCause::NotConcrete
        ))
    );
}

#[test]
fn solve_through_constraints_success() {
    let value = fe(0x1504);
    let expr = AffineExpression::from_value(value)
        .sub(var(2).mul(fe(256)))
        .sub(var(3));
    let known_constraints = constraints(vec![
        (2, RangeConstraint::from_max_bit(7)),
        (3, RangeConstraint::from_max_bit(3)),
    ]);
    assert_eq!(value, fe(0x15 * 256 + 0x4));
    assert_eq!(
        expr.solve_with_range_constraints(&known_constraints).unwrap(),
        EvalValue::complete(vec![
            (2, Constraint::Assignment(fe(0x15))),
            (3, Constraint::Assignment(fe(0x4)))
        ])
    );
}

#[test]
fn solve_through_constraints_conflict() {
    let value = fe(0x1554);
    let expr = AffineExpression::from_value(value)
        .sub(var(2).mul(fe(256)))
        .sub(var(3));
    let known_constraints = constraints(vec![
        (2, RangeConstraint::from_max_bit(7)),
        (3, RangeConstraint::from_max_bit(3)),
    ]);
    match expr.solve_with_range_constraints(&known_constraints) {
        Err(EvalError::ConflictingRangeConstraints) => {}
        _ => panic!(),
    };
}

#[test]
fn transfer_range_constraints() {
    // x2 * 0x100 + x3 - x1 - 200 = 0,
    // x2: & 0xff
    // x3: & 0xf
    // => x2 * 0x100 + x3: & 0xff0f = [0, 0xff0f]
    // => x1: [-200, 65095]
    let expr = var(2)
        .mul(fe(256))
        .add(var(3))
        .sub(var(1))
        .sub(AffineExpression::from_value(fe(200)));
    let known_constraints = constraints(vec![
        (2, RangeConstraint::from_max_bit(7)),
        (3, RangeConstraint::from_max_bit(3)),
    ]);
    let result = expr.solve_with_range_constraints(&known_constraints).unwrap();
    assert_eq!(
        result,
        EvalValue::incomplete_with_constraints(
            vec![(
                1,
                Constraint::RangeConstraint(
                    RangeConstraint::from_range(fe(200).neg(), fe(65095))
                        .conjunction(&RangeConstraint::from_mask(0xffffffffffffffffu64))
                )
            )],
            IncompleteCause::NotConcrete
        )
    );
}

#[test]
fn solve_division() {
    // 3 * x1 + x2 - 14 = 0
    let expr = var(1)
        .mul(fe(3))
        .add(var(2))
        .sub(AffineExpression::from_value(fe(14)));
    let known_constraints = constraints(vec![
        (2, RangeConstraint::from_range(fe(0), fe(2))),
        (1, RangeConstraint::from_range(fe(0), fe(400))),
    ]);
    let result = expr.solve_with_range_constraints(&known_constraints).unwrap();
    assert_eq!(
        result,
        EvalValue::complete(vec![
            (1, Constraint::Assignment(fe(4))),
            (2, Constraint::Assignment(fe(2)))
        ])
    );
}

#[test]
fn overflowing_division() {
    // -3 * x1 + x2 - 2 = 0
    // where x1 in [0, 1] and x2 in [0, 7]
    // This equation has two solutions: x1 = 0, x2 = 2 and x1 = 1, x2 = 5.
    // It does fit the division pattern for computing 2 / (p - 3), but because
    // -3 * x1 + x2 can overflow, it should not be applied.
    let expr = var(1)
        .mul(fe(-3))
        .add(var(2))
        .sub(AffineExpression::from_value(fe(2)));
    let known_constraints = constraints(vec![
        (1, RangeConstraint::from_range(fe(0), fe(1))),
        (2, RangeConstraint::from_range(fe(0), fe(7))),
    ]);
    let result = expr.solve_with_range_constraints(&known_constraints).unwrap();
    assert_eq!(
        result,
        EvalValue::incomplete_with_constraints(
            vec![(
                2,
                Constraint::RangeConstraint(RangeConstraint::from_range(fe(2), fe(5)))
            )],
            IncompleteCause::NotConcrete
        )
    );
}

#[test]
fn solve_is_zero() {
    // 1 - (3 * inv) - is_zero = 0
    // 1 - (3 * x2) - x1 = 0
    // x1 in [0, 1]
    // This is almost suitable for the division pattern, but inv is not properly
    // constrained. So we should get "no progress" here.
    let expr = AffineExpression::from_value(fe(1))
        .sub(var(2).mul(fe(3)))
        .sub(var(1));
    let known_constraints = constraints(vec![(1, RangeConstraint::from_range(fe(0), fe(1)))]);
    let result = expr.solve_with_range_constraints(&known_constraints).unwrap();
    assert_eq!(
        result,
        EvalValue::incomplete(IncompleteCause::NoProgressTransferring)
    );
}

#[test]
fn complete_answers_make_the_expression_zero() {
    // 100 = 7 * q + r with r < 7: the division pattern gives q = 14, r = 2.
    let expr = var(1).add(var(2).mul(fe(7))).sub(constant(100));
    let known = constraints(vec![
        (1, RangeConstraint::from_range(fe(0), fe(6))),
        (2, RangeConstraint::from_range(fe(0), fe(1000))),
    ]);
    let v = expr.solve_with_range_constraints(&known).unwrap();
    assert!(v.is_complete());
    let value_of = |k: u64| {
        v.constraints
            .iter()
            .find(|(x, _)| *x == k)
            .map(|(_, c)| match c {
                Constraint::Assignment(x) => x.0,
                _ => panic!("not an assignment"),
            })
            .unwrap()
    };
    assert_eq!(value_of(1) + 7 * value_of(2), 100);
}

#[test]
fn bit_answers_divide_the_offset_bits_by_the_coefficient() {
    // 3 * x + y = 4 with y in [0, 0]: the bits of 4 fall under the mask of 3 * x,
    // and 4 / 3 rounds down, so the complete answer x = 1, y = 0 does not make
    // the expression zero.
    let expr = var(1).mul(fe(3)).add(var(2)).sub(constant(4));
    let known = constraints(vec![
        (1, RangeConstraint::from_mask(u64::MAX)),
        (2, RangeConstraint::from_mask(0)),
    ]);
    let v = expr.solve_with_range_constraints(&known).unwrap();
    assert!(v.is_complete());
    let mut assigned = v.constraints.clone();
    assigned.sort_by_key(|(k, _)| *k);
    assert_eq!(
        assigned,
        vec![(1, Constraint::Assignment(fe(1))), (2, Constraint::Assignment(fe(0)))]
    );
}
