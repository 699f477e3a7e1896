use powdr::display::{
    AssignmentRegister, CallableRef, DebugDirective, Expression, FunctionStatement,
    LetStatementInsideBlock, LinkDeclaration, MachineStatement, MatchArm, MatchPattern,
    OperationId, Param, Params, Part, PolynomialName, RegisterFlag, SymbolPath,
};

fn r(name: &str) -> Expression {
    Expression::Reference(name.to_string())
}

fn plain_param(name: &str) -> Param {
    Param {
        name: name.to_string(),
        index: None,
        ty: None,
    }
}

fn params(inputs: &[&str], outputs: &[&str]) -> Params {
    Params {
        inputs: inputs.iter().map(|n| plain_param(n)).collect(),
        outputs: outputs.iter().map(|n| plain_param(n)).collect(),
    }
}

#[test]
fn function_statements_as_text() {
    let assign = FunctionStatement::Assignment(
        vec!["A".to_string(), "B".to_string()],
        Some(vec![
            AssignmentRegister::Register("X".to_string()),
            AssignmentRegister::Wildcard,
        ]),
        Box::new(r("x")),
    );
    assert_eq!(assign.to_string(), "A, B <=X, _= x;");
    let plain = FunctionStatement::Assignment(vec!["A".to_string()], None, Box::new(Expression::Number(5)));
    assert_eq!(plain.to_string(), "A <== 5;");
    assert_eq!(
        FunctionStatement::Instruction("jump".to_string(), vec![r("l")]).to_string(),
        "jump l;"
    );
    assert_eq!(
        FunctionStatement::Instruction("nop".to_string(), vec![]).to_string(),
        "nop;"
    );
    assert_eq!(FunctionStatement::Label("start".to_string()).to_string(), "start:");
    assert_eq!(FunctionStatement::Return(vec![]).to_string(), "return;");
    assert_eq!(
        FunctionStatement::Return(vec![Expression::Number(1), Expression::Number(2)]).to_string(),
        "return 1, 2;"
    );
}

#[test]
fn debug_directives_as_text() {
    assert_eq!(
        DebugDirective::File(1, "dir".to_string(), "f\"s.rs".to_string()).to_string(),
        ".debug file 1 \"dir\" \"f\\\"s.rs\";"
    );
    assert_eq!(DebugDirective::Loc(1, 2, 3).to_string(), ".debug loc 1 2 3;");
    assert_eq!(
        DebugDirective::OriginalInstruction("add x1, x2".to_string()).to_string(),
        ".debug insn \"add x1, x2\";"
    );
    assert_eq!(
        FunctionStatement::DebugDirective(DebugDirective::Loc(4, 5, 6)).to_string(),
        ".debug loc 4 5 6;"
    );
}

#[test]
fn machine_statements_as_text() {
    assert_eq!(MachineStatement::Degree(Expression::Number(8)).to_string(), "degree 8;");
    assert_eq!(
        MachineStatement::CallSelectors("sel".to_string()).to_string(),
        "call_selectors sel;"
    );
    let ty = SymbolPath::from_parts(vec![
        Part::Named("std".to_string()),
        Part::Named("Binary".to_string()),
    ]);
    assert_eq!(
        MachineStatement::Submachine(ty, "bin".to_string()).to_string(),
        "std::Binary bin;"
    );
    assert_eq!(
        MachineStatement::RegisterDeclaration("pc".to_string(), Some(RegisterFlag::IsPC)).to_string(),
        "reg pc[@pc];"
    );
    assert_eq!(
        MachineStatement::RegisterDeclaration("X".to_string(), Some(RegisterFlag::IsAssignment)).to_string(),
        "reg X[<=];"
    );
    assert_eq!(
        MachineStatement::RegisterDeclaration("A".to_string(), None).to_string(),
        "reg A;"
    );
    assert_eq!(RegisterFlag::IsReadOnly.to_string(), "@r");
    let link = LinkDeclaration {
        flag: r("f"),
        to: CallableRef {
            instance: "bin".to_string(),
            callable: "add".to_string(),
            params: params(&["a", "b"], &["c"]),
        },
        is_permutation: false,
    };
    assert_eq!(link.to_string(), "link f => bin.add a, b -> c;");
    let perm = LinkDeclaration {
        flag: r("g"),
        to: CallableRef {
            instance: "m".to_string(),
            callable: "op".to_string(),
            params: params(&[], &["x"]),
        },
        is_permutation: true,
    };
    assert_eq!(
        MachineStatement::LinkDeclaration(perm).to_string(),
        "link g ~> m.op -> x;"
    );
    assert_eq!(
        MachineStatement::OperationDeclaration(
            "op".to_string(),
            OperationId { id: Some(3) },
            params(&["a"], &["b"])
        )
        .to_string(),
        "operation op<3> a -> b;"
    );
    assert_eq!(
        MachineStatement::OperationDeclaration("nothing".to_string(), OperationId { id: None }, params(&[], &[]))
            .to_string(),
        "operation nothing;"
    );
    let body = vec![
        FunctionStatement::Label("start".to_string()),
        FunctionStatement::Return(vec![]),
    ];
    assert_eq!(
        MachineStatement::FunctionDeclaration("main".to_string(), Params::default(), body).to_string(),
        "function main {\nstart:\nreturn;\n}"
    );
}

#[test]
fn names_lets_and_match_arms_as_text() {
    let sized = PolynomialName {
        name: "x".to_string(),
        array_size: Some(Expression::Number(4)),
    };
    assert_eq!(sized.to_string(), "x[4]");
    let single = PolynomialName {
        name: "y".to_string(),
        array_size: None,
    };
    assert_eq!(single.to_string(), "y");
    let with_value = LetStatementInsideBlock {
        name: "x".to_string(),
        value: Some(Expression::Number(1)),
    };
    assert_eq!(with_value.to_string(), "let x = 1;");
    let without = LetStatementInsideBlock {
        name: "x".to_string(),
        value: None,
    };
    assert_eq!(without.to_string(), "let x;");
    let arm = MatchArm {
        pattern: MatchPattern::CatchAll,
        value: Expression::Number(0),
    };
    assert_eq!(arm.to_string(), "_ => 0,");
    let arm = MatchArm {
        pattern: MatchPattern::Pattern(Expression::Number(7)),
        value: r("v"),
    };
    assert_eq!(arm.to_string(), "7 => v,");
    assert_eq!(MatchPattern::CatchAll.to_string(), "_");
}
