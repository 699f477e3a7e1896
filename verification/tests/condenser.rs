use powdr::condenser::{condensed_source_order, merge_definitions, StatementId};

fn def(n: &str) -> StatementId {
    StatementId::Definition(n.to_string())
}

#[test]
fn new_columns_and_constraints_come_before_their_statement() {
    let order = vec![
        def("main.x"),
        StatementId::Identity(0),
        StatementId::PublicDeclaration("main.out".to_string()),
        StatementId::Identity(1),
    ];
    let new_cols = vec![
        vec![],
        vec!["main.helper".to_string()],
        vec![],
        vec!["main.a".to_string(), "main.b".to_string()],
    ];
    let counts = vec![0, 2, 0, 1];
    let r = condensed_source_order(&order, &new_cols, &counts);
    assert_eq!(
        r,
        vec![
            def("main.x"),
            def("main.helper"),
            StatementId::Identity(0),
            StatementId::Identity(1),
            StatementId::PublicDeclaration("main.out".to_string()),
            def("main.a"),
            def("main.b"),
            StatementId::Identity(2),
        ]
    );
}

#[test]
fn an_identity_without_constraints_disappears() {
    let order = vec![StatementId::Identity(0), def("main.y")];
    let r = condensed_source_order(&order, &vec![vec![], vec![]], &vec![0, 1]);
    assert_eq!(r, vec![StatementId::Identity(0), def("main.y")]);
}

fn sorted(mut v: Vec<(String, Option<u32>)>) -> Vec<(String, Option<u32>)> {
    v.sort();
    v
}

#[test]
fn definitions_drop_intermediates_and_gain_new_columns_with_values() {
    let defs = vec![
        ("main.x".to_string(), Some(1u32)),
        ("main.inter".to_string(), Some(2)),
        ("main.y".to_string(), None),
    ];
    let r = merge_definitions(
        defs,
        &vec!["main.inter".to_string()],
        &vec!["main.new1".to_string(), "main.new2".to_string()],
        vec![("main.new2".to_string(), 7u32), ("main.y".to_string(), 9)],
    );
    assert_eq!(
        sorted(r),
        vec![
            ("main.new1".to_string(), None),
            ("main.new2".to_string(), Some(7)),
            ("main.x".to_string(), Some(1)),
            ("main.y".to_string(), Some(9)),
        ]
    );
}

#[test]
fn a_new_column_replaces_a_definition_of_the_same_name() {
    let defs = vec![("main.c".to_string(), Some(3u32))];
    let r = merge_definitions(defs, &vec![], &vec!["main.c".to_string()], vec![]);
    assert_eq!(r, vec![("main.c".to_string(), None)]);
}
