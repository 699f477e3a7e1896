use powdr::reachability::{
    can_filter_reachable_from, extract_label_offsets, filter_reachable_from,
    find_reachable_labels, references_in_statement, Argument, Constant, DataValue, Register,
    Statement,
};

fn s(x: &str) -> String {
    x.to_string()
}

fn label(x: &str) -> Statement {
    Statement::Label(s(x))
}

fn instr(name: &str, args: Vec<Argument>) -> Statement {
    Statement::Instruction(s(name), args)
}

fn sym(x: &str) -> Argument {
    Argument::Symbol(s(x))
}

fn reg(v: u8) -> Argument {
    Argument::Register(Register { value: v })
}

fn set(from: &str, to: &str) -> Statement {
    Statement::Directive(s(".set"), vec![sym(from), sym(to)])
}

/// main calls f, which jumps to end; g is never reached.
fn program() -> Vec<Statement> {
    vec![
        label("main"),
        instr("la", vec![reg(10), sym("data1")]),
        instr("call", vec![sym("f")]),
        instr("ret", vec![]),
        label("f"),
        instr("lui", vec![reg(11), Argument::Constant(Constant::HiDataRef(s("alias"), 0))]),
        instr("j", vec![sym("end")]),
        label("g"),
        instr("call", vec![sym("h")]),
        instr("ret", vec![]),
        label("end"),
        instr("ret", vec![]),
        set("alias", "data2"),
    ]
}

fn objects() -> Vec<(String, Vec<DataValue>)> {
    vec![
        (s("data1"), vec![DataValue::Reference(s("f")), DataValue::Zero(4)]),
        (s("data2"), vec![DataValue::Direct(vec![1, 2, 3])]),
        (s("data3"), vec![DataValue::Reference(s("g"))]),
    ]
}

#[test]
fn references_are_sorted_and_distinct() {
    let st = instr(
        "sw",
        vec![
            sym("zeta"),
            Argument::RegOffset(None, Constant::LoDataRef(s("alpha"), 4)),
            sym("zeta"),
            Argument::Constant(Constant::Number(7)),
            Argument::StringLiteral(vec![65]),
        ],
    );
    assert_eq!(references_in_statement(&st), vec![s("alpha"), s("zeta")]);
    assert!(references_in_statement(&label("x")).is_empty());
    assert!(references_in_statement(&set("a", "b")).is_empty());
}

#[test]
fn label_offsets_in_name_order() {
    let offsets = extract_label_offsets(&program());
    assert_eq!(
        offsets,
        vec![(s("end"), 10), (s("f"), 4), (s("g"), 7), (s("main"), 0)]
    );
}

#[test]
fn reachable_labels_of_program() {
    let replacements = vec![(s("alias"), s("data2"))];
    let reached = find_reachable_labels("main", &program(), &objects(), &replacements);
    assert_eq!(
        reached,
        vec![s("data1"), s("data2"), s("end"), s("f"), s("main")]
    );
}

#[test]
fn reachable_from_a_data_object() {
    let replacements = vec![(s("alias"), s("data2"))];
    let reached = find_reachable_labels("data1", &program(), &objects(), &replacements);
    assert_eq!(reached, vec![s("data1"), s("data2"), s("end"), s("f")]);
    // From data3 the search reaches g, whose block calls the missing h.
    assert!(!can_filter_reachable_from("data3", &program(), &objects()));
}

#[test]
fn filter_keeps_reachable_code_and_data() {
    let mut statements = program();
    let mut objs = objects();
    assert!(can_filter_reachable_from("main", &statements, &objs));
    filter_reachable_from("main", &mut statements, &mut objs);
    assert_eq!(
        objs,
        vec![
            (s("data1"), vec![DataValue::Reference(s("f")), DataValue::Zero(4)]),
            (s("data2"), vec![DataValue::Direct(vec![1, 2, 3])]),
        ]
    );
    assert_eq!(
        statements,
        vec![
            label("main"),
            instr("la", vec![reg(10), sym("data1")]),
            instr("call", vec![sym("f")]),
            instr("ret", vec![]),
            label("f"),
            instr("lui", vec![reg(11), Argument::Constant(Constant::HiDataRef(s("data2"), 0))]),
            instr("j", vec![sym("end")]),
            label("end"),
            instr("ret", vec![]),
        ]
    );
}

#[test]
fn chains_of_set_directives_are_followed() {
    let mut statements = vec![
        label("main"),
        instr("call", vec![sym("a")]),
        instr("ret", vec![]),
        label("c"),
        instr("ret", vec![]),
        set("a", "b"),
        set("b", "c"),
    ];
    let mut objs = vec![];
    assert!(can_filter_reachable_from("main", &statements, &objs));
    filter_reachable_from("main", &mut statements, &mut objs);
    assert_eq!(
        statements,
        vec![
            label("main"),
            instr("call", vec![sym("c")]),
            instr("ret", vec![]),
            label("c"),
            instr("ret", vec![]),
        ]
    );
}

#[test]
fn refused_inputs() {
    // A reached label that does not exist.
    let missing = vec![label("main"), instr("call", vec![sym("nowhere")]), instr("ret", vec![])];
    assert!(!can_filter_reachable_from("main", &missing, &vec![]));
    // A cycle of .set directives.
    let cycle = vec![label("main"), instr("ret", vec![]), set("a", "b"), set("b", "a")];
    assert!(!can_filter_reachable_from("main", &cycle, &vec![]));
    // The same name set twice.
    let twice = vec![label("main"), instr("ret", vec![]), set("a", "b"), set("a", "c")];
    assert!(!can_filter_reachable_from("main", &twice, &vec![]));
    // A duplicate label.
    let dup = vec![label("main"), instr("ret", vec![]), label("main"), instr("ret", vec![])];
    assert!(!can_filter_reachable_from("main", &dup, &vec![]));
    // An unknown instruction in a reached block.
    let unknown = vec![label("main"), instr("frobnicate", vec![]), instr("ret", vec![])];
    assert!(!can_filter_reachable_from("main", &unknown, &vec![]));
    // An unknown instruction after the end of the block is never looked at.
    let after = vec![label("main"), instr("ret", vec![]), instr("frobnicate", vec![])];
    assert!(can_filter_reachable_from("main", &after, &vec![]));
}
