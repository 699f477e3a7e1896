use powdr::backend::{create_hashmap, GkrMapping, ProofType};
use powdr::bootloader::shutdown_routine_upper_bound;
use powdr::codegen::{escape_symbol, is_builtin};
use powdr::columns::VariablySizedColumns;
use powdr::eval::{Constraint, EvalStatus, EvalValue, IncompleteCause};
use powdr::field::GoldilocksField;

#[test]
fn symbols_are_escaped() {
    assert_eq!(escape_symbol("std::array::len"), "std_array_len");
    assert_eq!(escape_symbol("main.x"), "main_x");
    assert_eq!(escape_symbol("a:::b"), "a_:b");
    assert!(is_builtin("std::check::panic"));
    assert!(is_builtin("std::convert::fe"));
    assert!(!is_builtin("std::array::len"));
}

#[test]
fn columns_of_one_size() {
    let single = VariablySizedColumns::new(vec![
        ("a".to_string(), vec![(2, vec![1u64, 2])]),
        ("b".to_string(), vec![(2, vec![3u64, 4])]),
    ]);
    assert_eq!(single.len(), 2);
    assert!(!single.is_empty());
    let v = single.get_only_size_cloned().unwrap();
    assert_eq!(v, vec![("a".to_string(), vec![1, 2]), ("b".to_string(), vec![3, 4])]);
    let refs = single.get_only_size().unwrap();
    assert_eq!(refs[1].1, &vec![3u64, 4]);

    let multi = VariablySizedColumns::new(vec![(
        "a".to_string(),
        vec![(2, vec![1u64, 2]), (4, vec![1, 2, 3, 4])],
    )]);
    assert!(multi.get_only_size().is_err());
    assert!(multi.get_only_size_cloned().is_err());
    let none: VariablySizedColumns<u64> = VariablySizedColumns::new(vec![]);
    assert!(none.is_empty());
}

#[test]
fn shutdown_bound() {
    // 6 + 36 instructions of overhead, 14 + 512 + 128 + 8 + 2 per page.
    assert_eq!(shutdown_routine_upper_bound(0), 42);
    assert_eq!(shutdown_routine_upper_bound(2), 42 + 2 * 664);
}

#[test]
fn evaluation_values() {
    let c = EvalValue::complete(vec![(1, Constraint::Assignment(GoldilocksField::from_u64(3)))]);
    assert!(c.is_complete());
    assert!(!c.is_empty());
    let i = EvalValue::incomplete(IncompleteCause::NotConcrete);
    assert!(!i.is_complete());
    assert!(i.is_empty());
    assert_eq!(i.status, EvalStatus::Incomplete(IncompleteCause::NotConcrete));
}

#[test]
fn pilcom_backend_refuses_aggregation() {
    let backend = powdr::backend::PilcomCli::new(8);
    assert_eq!(backend.degree(), 8);
    assert_eq!(backend.check_proof_request(false), Ok(()));
    assert_eq!(
        backend.check_proof_request(true),
        Err("Aggregration is not implemented for Pilcom CLI backend".to_string())
    );
}

#[test]
fn gkr_proof_types_and_column_layout() {
    assert_eq!(ProofType::from(""), ProofType::Poseidon);
    assert_eq!(ProofType::from("poseidon"), ProofType::Poseidon);
    assert_eq!(ProofType::from("snark_single"), ProofType::SnarkSingle);
    assert_eq!(ProofType::from("snark_aggr"), ProofType::SnarkAggr);

    let col = |name: &str, vals: &[u64]| {
        (
            name.to_string(),
            vals.iter().map(|v| GoldilocksField::from_u64(*v)).collect::<Vec<_>>(),
        )
    };
    let fixed = vec![col("a", &[1, 2, 3]), col("b", &[4, 5, 6])];
    let witness = vec![col("c", &[7, 8, 9]), col("a", &[0, 0, 0])];
    let merged = create_hashmap(&fixed, &witness);
    let names: Vec<&str> = merged.iter().map(|(n, _)| n.as_str()).collect();
    assert_eq!(names, vec!["a", "b", "c"]);
    assert_eq!(merged[0].1, vec![GoldilocksField::from_u64(0); 3]);

    let mapping = GkrMapping::new(fixed);
    assert_eq!(mapping.index("a", 2), 2);
    assert_eq!(mapping.index("b", 1), 4);
}
