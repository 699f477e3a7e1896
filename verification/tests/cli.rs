use powdr::cli::{split_inputs, CsvRenderModeCLI, FieldArgument, Inputs};
use powdr::riscv_cli::{coprocessors_to_options, KnownField, RuntimeLibs};
use powdr::field::{GoldilocksField, P};

#[test]
fn inputs_are_split_at_commas() {
    let v = split_inputs("3, 2,1 ,, 2");
    assert_eq!(
        v,
        vec![
            GoldilocksField::from_u64(3),
            GoldilocksField::from_u64(2),
            GoldilocksField::from_u64(1),
            GoldilocksField::from_u64(2),
        ]
    );
    assert!(split_inputs("").is_empty());
    assert_eq!(split_inputs(&P.to_string()), vec![GoldilocksField::from_u64(0)]);
}

#[test]
fn field_and_render_mode_names() {
    assert!(matches!(FieldArgument::parse("gl"), Some(FieldArgument::Gl)));
    assert!(matches!(FieldArgument::parse("bn254"), Some(FieldArgument::Bn254)));
    assert!(FieldArgument::parse("bb").is_none());
    assert_eq!(FieldArgument::Bn254.as_str(), "bn254");
    assert!(matches!(CsvRenderModeCLI::parse("ui"), Some(CsvRenderModeCLI::UnsignedBase10)));
    assert!(matches!(CsvRenderModeCLI::parse("hex"), Some(CsvRenderModeCLI::Hex)));
    assert!(CsvRenderModeCLI::parse("x").is_none());
    assert_eq!(CsvRenderModeCLI::SignedBase10.as_str(), "i");
}

#[test]
fn default_inputs_start_after_the_bootloader() {
    let inputs = Inputs::default();
    assert_eq!(inputs.values.len(), 37);
    assert_eq!(inputs.pc(), GoldilocksField::from_u64(50));
    assert_eq!(inputs.values[0], GoldilocksField::from_u64(0));
}

#[test]
fn coprocessor_lists() {
    let none = RuntimeLibs::new();
    assert_eq!(coprocessors_to_options(None), Ok(none));
    assert_eq!(
        coprocessors_to_options(Some("keccakf,arith".to_string())),
        Ok(RuntimeLibs {
            arith: true,
            keccak: true,
            poseidon2: false
        })
    );
    assert_eq!(
        coprocessors_to_options(Some("poseidon2_gl".to_string())),
        Ok(none.with_poseidon2())
    );
    assert_eq!(
        coprocessors_to_options(Some("arith,sha".to_string())),
        Err(vec!["Invalid co-processor specified: sha".to_string()])
    );
    assert_eq!(
        coprocessors_to_options(Some("arith,".to_string())),
        Err(vec!["Invalid co-processor specified: ".to_string()])
    );
}

#[test]
fn toolchain_fields() {
    use_fields();
}

fn use_fields() {
    let bb = powdr::riscv_cli::FieldArgument::parse("bb").unwrap();
    assert_eq!(bb.as_known_field(), KnownField::BabyBearField);
    assert_eq!(bb.as_str(), "bb");
    assert_eq!(
        powdr::riscv_cli::FieldArgument::parse("kb").map(|f| f.as_known_field()),
        Some(KnownField::KoalaBearField)
    );
    assert_eq!(
        powdr::riscv_cli::FieldArgument::Gl.as_known_field(),
        KnownField::GoldilocksField
    );
    assert_eq!(
        powdr::riscv_cli::FieldArgument::Bn254.as_known_field(),
        KnownField::Bn254Field
    );
    assert!(powdr::riscv_cli::FieldArgument::parse("m31").is_none());
}
