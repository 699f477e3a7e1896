use powdr::bootloader::{
    default_register_values, split_fe, BootloaderInputs, PageInputs, DEFAULT_PC, PC_INDEX,
};
use powdr::field::GoldilocksField;

fn fe(v: u64) -> GoldilocksField {
    GoldilocksField::from_u64(v)
}

fn hash(seed: u64) -> Vec<GoldilocksField> {
    (0..8).map(|i| fe(seed * 100 + i)).collect()
}

fn page(index: u32) -> PageInputs {
    PageInputs {
        index,
        data: (0..512).map(|i| fe(i + 1000)).collect(),
        hash: hash(7),
        siblings: (0..21).map(|s| hash(10 + s)).collect(),
    }
}

fn inputs_with_two_pages() -> BootloaderInputs {
    let mut regs = default_register_values();
    regs[0] = fe(11);
    BootloaderInputs::new(regs, &hash(1), &vec![page(5), page(9)])
}

#[test]
fn register_defaults() {
    let regs = default_register_values();
    assert_eq!(regs.len(), 37);
    assert_eq!(regs[PC_INDEX], fe(DEFAULT_PC));
    assert_eq!(regs[0], fe(0));
}

#[test]
fn inputs_are_laid_out_in_order() {
    let inputs = inputs_with_two_pages();
    assert_eq!(inputs.len(), 91 + 2 * 689);
    assert_eq!(inputs.pc(), fe(3));
    assert_eq!(inputs.initial_memory_hash(), hash(1));
    assert_eq!(inputs.final_memory_hash(), hash(1));
    let all = inputs.as_executor_input();
    assert_eq!(all[0], fe(11));
    assert_eq!(all[37], fe(11));
    assert_eq!(all[90], fe(2));
    assert_eq!(all[91], fe(5));
    assert_eq!(all[92], fe(1000));
    assert_eq!(all[91 + 689], fe(9));
    assert_eq!(inputs.proof_hash(0, 0), hash(10));
    assert_eq!(inputs.proof_hash(1, 20), hash(30));
}

#[test]
fn updates_are_read_back() {
    let mut inputs = inputs_with_two_pages();
    inputs.update_proof(1, 3, &hash(77));
    assert_eq!(inputs.proof_hash(1, 3), hash(77));
    assert_eq!(inputs.proof_hash(1, 2), hash(12));
    assert_eq!(inputs.proof_hash(1, 4), hash(14));
    inputs.update_page_hash(0, &hash(55));
    assert_eq!(inputs.as_executor_input()[604..612].to_vec(), hash(55));
    assert_eq!(inputs.proof_hash(0, 0), hash(10));
    inputs.update_final_root(&hash(66));
    assert_eq!(inputs.final_memory_hash(), hash(66));
    assert_eq!(inputs.initial_memory_hash(), hash(1));
    let regs: Vec<GoldilocksField> = (0..37).map(fe).collect();
    inputs.update_final_registers(&regs);
    assert_eq!(inputs.as_executor_input()[37..74].to_vec(), regs);
    assert_eq!(inputs.pc(), fe(3));
}

#[test]
fn inputs_become_one_witness_column() {
    let inputs = inputs_with_two_pages();
    let n = inputs.len();
    let witness = inputs.into_witness();
    assert_eq!(witness.len(), 1);
    assert_eq!(witness[0].0, "main_bootloader_inputs::value");
    assert_eq!(witness[0].1.len(), n);
}

#[test]
fn field_elements_split_into_words() {
    let v = GoldilocksField(0x1234_5678_9abc_def0);
    assert_eq!(split_fe(v), [fe(0x9abc_def0), fe(0x1234_5678)]);
}
