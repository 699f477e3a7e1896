use powdr::field::GoldilocksField;
use powdr::identity::{
    convert, AlgebraicExpression, AlgebraicUnaryOperator, AnalyzedIdentity, Identity,
    InteractionType, SelectedExpressions,
};

fn col(name: &str) -> AlgebraicExpression {
    AlgebraicExpression::Reference(name.to_string(), false)
}

fn next(name: &str) -> AlgebraicExpression {
    AlgebraicExpression::Reference(name.to_string(), true)
}

fn num(v: u64) -> AlgebraicExpression {
    AlgebraicExpression::Number(GoldilocksField::from_u64(v))
}

fn selected(selector: AlgebraicExpression, exprs: Vec<AlgebraicExpression>) -> SelectedExpressions {
    SelectedExpressions {
        selector,
        expressions: exprs,
    }
}

fn bus_parts(i: &Identity) -> (u64, InteractionType, bool) {
    match i {
        Identity::BusInteraction(b) => (b.id, b.interaction_type, b.multiplicity.is_some()),
        _ => panic!("not a bus interaction"),
    }
}

#[test]
fn lookups_become_pairs_of_bus_interactions() {
    let identities = vec![
        AnalyzedIdentity::Polynomial(3, col("a")),
        AnalyzedIdentity::Lookup(
            0,
            selected(col("s"), vec![num(1), col("a")]),
            selected(col("t"), vec![num(1), col("b")]),
        ),
        AnalyzedIdentity::Connect(7, vec![col("x")], vec![col("y")]),
        AnalyzedIdentity::Permutation(
            0,
            selected(col("s"), vec![col("a")]),
            selected(col("t"), vec![col("b")]),
        ),
        AnalyzedIdentity::PhantomBusInteraction(
            0,
            AlgebraicExpression::UnaryOperation(AlgebraicUnaryOperator::Minus, Box::new(col("m"))),
            vec![num(2)],
            col("latch"),
        ),
        AnalyzedIdentity::PhantomLookup(
            0,
            selected(col("s"), vec![col("a")]),
            selected(col("t"), vec![col("b")]),
            col("mult"),
        ),
    ];
    let converted = convert(&identities);
    assert_eq!(converted.len(), 9);
    let ids: Vec<u64> = converted.iter().map(|i| i.id()).collect();
    assert_eq!(ids, vec![3, 8, 9, 7, 10, 11, 12, 13, 14]);
    assert_eq!(bus_parts(&converted[1]), (8, InteractionType::Send, false));
    assert_eq!(bus_parts(&converted[2]), (9, InteractionType::Receive, false));
    assert_eq!(bus_parts(&converted[4]), (10, InteractionType::Send, true));
    assert_eq!(bus_parts(&converted[5]), (11, InteractionType::Receive, true));
    assert_eq!(bus_parts(&converted[6]), (12, InteractionType::Receive, true));
    assert_eq!(bus_parts(&converted[7]), (13, InteractionType::Send, true));
    assert_eq!(bus_parts(&converted[8]), (14, InteractionType::Receive, true));
    match &converted[5] {
        Identity::BusInteraction(b) => assert!(b.is_unconstrained_receive()),
        _ => panic!("not a bus interaction"),
    }
    match &converted[8] {
        Identity::BusInteraction(b) => assert!(!b.is_unconstrained_receive()),
        _ => panic!("not a bus interaction"),
    }
}

#[test]
fn sends_are_matched_with_one_receive() {
    let identities = vec![
        AnalyzedIdentity::Lookup(
            0,
            selected(col("s"), vec![num(5), col("a")]),
            selected(col("t"), vec![num(5), col("b")]),
        ),
        AnalyzedIdentity::Lookup(
            0,
            selected(col("s"), vec![num(6), col("a")]),
            selected(col("t"), vec![num(6), col("b")]),
        ),
    ];
    let buses: Vec<_> = convert(&identities)
        .into_iter()
        .map(|i| match i {
            Identity::BusInteraction(b) => b,
            _ => panic!("not a bus interaction"),
        })
        .collect();
    let m = buses[0].try_match_static(&buses).unwrap();
    assert_eq!(m.id, buses[1].id);
    assert_eq!(buses[0].interaction_id(), Some(GoldilocksField::from_u64(5)));
    let twice = vec![
        AnalyzedIdentity::Lookup(
            0,
            selected(col("s"), vec![num(5)]),
            selected(col("t"), vec![num(5)]),
        ),
        AnalyzedIdentity::Lookup(
            0,
            selected(col("u"), vec![num(5)]),
            selected(col("v"), vec![num(5)]),
        ),
    ];
    let buses2: Vec<_> = convert(&twice)
        .into_iter()
        .map(|i| match i {
            Identity::BusInteraction(b) => b,
            _ => panic!("not a bus interaction"),
        })
        .collect();
    assert!(buses2[0].try_match_static(&buses2).is_none());
}

#[test]
fn next_references_are_found() {
    let p = convert(&vec![AnalyzedIdentity::Polynomial(1, next("a"))]);
    assert!(p[0].contains_next_ref());
    let c = convert(&vec![AnalyzedIdentity::Connect(1, vec![col("a")], vec![col("b")])]);
    assert!(!c[0].contains_next_ref());
    let l = convert(&vec![AnalyzedIdentity::Lookup(
        0,
        selected(col("s"), vec![col("a")]),
        selected(col("t"), vec![next("b")]),
    )]);
    assert!(!l[0].contains_next_ref());
    assert!(l[1].contains_next_ref());
}
