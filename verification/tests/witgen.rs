use powdr::field::GoldilocksField;
use powdr::witgen::{
    binary_machine_updates, index, index_known, set_known, BinaryColumn,
    ProcessedProverFunctions, Value,
};

fn fe(v: u64) -> GoldilocksField {
    GoldilocksField::from_u64(v)
}

#[test]
fn row_major_cells() {
    // Columns 10..13, three per row; row 2 + (-1) = 1, column 12 -> 1 * 3 + 2.
    assert_eq!(index(10, 3, 2, -1, 12), 5);
    assert_eq!(index(10, 3, 0, 0, 10), 0);
    // 40 columns need two 32-bit words per row.
    assert_eq!(index_known(0, 40, 3, 0, 33), (7, 1));
    let mut data = vec![fe(0); 6];
    powdr::witgen::set(10, 3, &mut data, 2, -1, 12, fe(9));
    assert_eq!(data[5], fe(9));
    let mut known = vec![0u32; 8];
    set_known(0, 40, &mut known, 3, 0, 33);
    assert_eq!(known[7], 2);
    set_known(0, 40, &mut known, 3, 0, 32);
    assert_eq!(known[7], 3);
}

#[test]
fn prover_functions_that_ran() {
    let mut p = ProcessedProverFunctions::new(3);
    assert!(!p.has_run(5, 2));
    p.mark_as_run(5, 2);
    assert!(p.has_run(5, 2));
    assert!(!p.has_run(5, 1));
    assert!(!p.has_run(4, 2));
    p.mark_as_run(0, 0);
    assert!(p.has_run(0, 0));
    assert!(p.has_run(5, 2));
}

#[test]
fn values_as_text() {
    assert_eq!(Value::Concrete(fe(12)).to_string(), "12");
    assert_eq!(Value::Known.to_string(), "<known>");
    assert_eq!(Value::Unknown.to_string(), "???");
}

#[test]
fn binary_machine_shortcut() {
    assert!(binary_machine_updates(2, fe(0), fe(1), fe(1)).is_none());
    assert!(binary_machine_updates(3, fe(3), fe(1), fe(1)).is_none());
    let a = 0x1234_5678u64;
    let b = 0x0f0f_0f0fu64;
    let u = binary_machine_updates(7, fe(2), fe(a), fe(b)).unwrap();
    let c = a ^ b;
    assert_eq!(u.len(), 25);
    assert_eq!(u[0], (0, BinaryColumn::C, fe(c)));
    assert_eq!(u[1], (1, BinaryColumn::A, fe(a & 0xffffff)));
    assert_eq!(u[4], (1, BinaryColumn::AByte, fe(0x12)));
    assert_eq!(u[7], (1, BinaryColumn::OperationId, fe(2)));
    assert_eq!(u[11], (2, BinaryColumn::AByte, fe(0x34)));
    assert_eq!(u[18], (3, BinaryColumn::AByte, fe(0x56)));
    assert_eq!(u[24], (4, BinaryColumn::CByte, fe(c & 0xff)));
    let and = binary_machine_updates(3, fe(0), fe(a), fe(b)).unwrap();
    assert_eq!(and[0], (0, BinaryColumn::C, fe(a & b)));
    let or = binary_machine_updates(3, fe(1), fe(a), fe(b)).unwrap();
    assert_eq!(or[0], (0, BinaryColumn::C, fe(a | b)));
}
