use powdr::field::GoldilocksField;
use powdr::interpreter::{
    Assertion, BinaryOperator, BitOperator, Cell, Effect, EffectsInterpreter, LookupCell,
    MachineCallArgument, MachineCallVariable, RPNExpression, RPNExpressionElem,
    SymbolicExpression, UnaryOperator, Variable, VariableMapper,
};

fn fe(v: u64) -> GoldilocksField {
    GoldilocksField::from_u64(v)
}

fn sym<S>(s: S) -> Box<SymbolicExpression<S>> {
    Box::new(SymbolicExpression::Symbol(s))
}

fn num<S>(v: u64) -> Box<SymbolicExpression<S>> {
    Box::new(SymbolicExpression::Concrete(fe(v)))
}

fn cell(name: &str, id: u64, row_offset: i32) -> Cell {
    Cell {
        column_name: name.to_string(),
        id,
        row_offset,
    }
}

#[test]
fn expressions_in_reverse_polish_form() {
    // (x0 + 3) * 2
    let e = SymbolicExpression::BinaryOperation(
        Box::new(SymbolicExpression::BinaryOperation(
            sym(0usize),
            BinaryOperator::Add,
            num(3),
        )),
        BinaryOperator::Mul,
        num(2),
    );
    let rpn = RPNExpression::from(&e);
    assert_eq!(
        rpn.elems,
        vec![
            RPNExpressionElem::Symbol(0),
            RPNExpressionElem::Concrete(fe(3)),
            RPNExpressionElem::BinaryOperation(BinaryOperator::Add),
            RPNExpressionElem::Concrete(fe(2)),
            RPNExpressionElem::BinaryOperation(BinaryOperator::Mul),
        ]
    );
    let mut stack = vec![fe(42)];
    let vars = vec![Some(fe(5))];
    assert_eq!(rpn.evaluate(&mut stack, &vars), fe(16));
    assert_eq!(stack, vec![fe(42)]);
}

#[test]
fn field_and_integer_operations() {
    let vars = vec![Some(fe(7)), Some(fe(2))];
    let eval = |e: SymbolicExpression<usize>| RPNExpression::from(&e).evaluate(&mut vec![], &vars);
    assert_eq!(
        eval(SymbolicExpression::BinaryOperation(sym(0), BinaryOperator::IntegerDiv, sym(1))),
        fe(3)
    );
    assert_eq!(
        eval(SymbolicExpression::BinaryOperation(sym(1), BinaryOperator::Sub, sym(0))),
        fe(18446744069414584316)
    );
    assert_eq!(
        eval(SymbolicExpression::BinaryOperation(sym(0), BinaryOperator::Div, sym(1))),
        fe(9223372034707292164)
    );
    assert_eq!(
        eval(SymbolicExpression::UnaryOperation(UnaryOperator::Neg, sym(1))),
        fe(18446744069414584319)
    );
    assert_eq!(
        eval(SymbolicExpression::BitOperation(sym(0), BitOperator::And, 6)),
        fe(6)
    );
}

#[test]
fn variables_get_dense_indices() {
    let mut m = VariableMapper::new();
    let a = Variable::Cell(cell("main::a", 3, 1));
    let b = Variable::Param(2);
    let r = Variable::MachineCallReturnValue(MachineCallVariable {
        identity_id: 1,
        row_offset: 0,
        index: 2,
    });
    assert_eq!(m.map_var(&a), 0);
    assert_eq!(m.map_var(&b), 1);
    assert_eq!(m.map_var(&a), 0);
    assert_eq!(m.var_count(), 2);
    assert_eq!(m.get_var(&b), Some(1));
    assert_eq!(m.get_var(&r), None);
    assert_eq!(m.get_var(&Variable::Cell(cell("main::a", 3, 0))), None);
    let e = SymbolicExpression::BinaryOperation(sym(r), BinaryOperator::Add, sym(Variable::Param(2)));
    let mapped = m.map_expr_to_rpn(&e);
    assert_eq!(
        mapped.elems,
        vec![
            RPNExpressionElem::Symbol(2),
            RPNExpressionElem::Symbol(1),
            RPNExpressionElem::BinaryOperation(BinaryOperator::Add),
        ]
    );
    assert_eq!(m.var_count(), 3);
}

#[test]
fn parameters_are_read_and_written() {
    // params[1] = params[0] + 5
    let effects = vec![Effect::Assignment(
        Variable::Param(1),
        SymbolicExpression::BinaryOperation(sym(Variable::Param(0)), BinaryOperator::Add, num(5)),
    )];
    let interpreter = EffectsInterpreter::new(0, 1, &[Variable::Param(0)], &effects);
    let mut state = interpreter.begin_call();
    let mut params = vec![LookupCell::Input(fe(3)), LookupCell::Output(fe(0))];
    let mut data: Vec<GoldilocksField> = vec![];
    let mut known: Vec<u32> = vec![];
    let r = interpreter.run_until_machine_call(&mut state, &mut params, &mut data, &mut known, 0);
    assert_eq!(r, None);
    assert_eq!(params[1], LookupCell::Output(fe(8)));
}

#[test]
fn cells_are_read_written_and_marked_known() {
    // Columns 10 and 11, two rows: b' = a + 1 on row 0.
    let a = Variable::Cell(cell("a", 10, 0));
    let b = Variable::Cell(cell("b", 11, 1));
    let effects = vec![Effect::Assignment(
        b,
        SymbolicExpression::BinaryOperation(sym(copy(&a)), BinaryOperator::Add, num(1)),
    )];
    let interpreter = EffectsInterpreter::new(10, 2, &[a], &effects);
    let mut state = interpreter.begin_call();
    let mut params: Vec<LookupCell> = vec![];
    let mut data = vec![fe(41), fe(0), fe(0), fe(0)];
    let mut known = vec![0u32, 0u32];
    let r = interpreter.run_until_machine_call(&mut state, &mut params, &mut data, &mut known, 0);
    assert_eq!(r, None);
    assert_eq!(data, vec![fe(41), fe(0), fe(0), fe(42)]);
    assert_eq!(known, vec![0u32, 2u32]);
}

fn copy(v: &Variable) -> Variable {
    powdr::interpreter::copy_variable(v)
}

#[test]
fn holding_assertions_let_the_call_finish() {
    let effects = vec![Effect::Assertion(Assertion {
        lhs: *sym(Variable::Param(0)),
        rhs: *num(4),
        expected_equal: true,
    })];
    let interpreter = EffectsInterpreter::new(0, 1, &[Variable::Param(0)], &effects);
    let mut data: Vec<GoldilocksField> = vec![];
    let mut known: Vec<u32> = vec![];

    let mut state = interpreter.begin_call();
    let mut params = vec![LookupCell::Input(fe(4))];
    let r = interpreter.run_until_machine_call(&mut state, &mut params, &mut data, &mut known, 0);
    assert_eq!(r, None);
}

#[test]
fn machine_calls_are_handed_to_the_caller() {
    let ret = Variable::MachineCallReturnValue(MachineCallVariable {
        identity_id: 7,
        row_offset: 0,
        index: 1,
    });
    let effects = vec![
        Effect::MachineCall(
            7,
            vec![
                MachineCallArgument::Known(SymbolicExpression::BinaryOperation(
                    sym(Variable::Param(0)),
                    BinaryOperator::Mul,
                    num(2),
                )),
                MachineCallArgument::Unknown(copy(&ret)),
            ],
        ),
        Effect::Assignment(
            Variable::Param(1),
            SymbolicExpression::BinaryOperation(sym(ret), BinaryOperator::Add, num(1)),
        ),
    ];
    let interpreter = EffectsInterpreter::new(0, 1, &[Variable::Param(0)], &effects);
    let mut state = interpreter.begin_call();
    let mut params = vec![LookupCell::Input(fe(10)), LookupCell::Output(fe(0))];
    let mut data: Vec<GoldilocksField> = vec![];
    let mut known: Vec<u32> = vec![];
    let r = interpreter.run_until_machine_call(&mut state, &mut params, &mut data, &mut known, 0);
    let (id, mut cells) = r.unwrap();
    assert_eq!(id, 7);
    assert_eq!(
        cells,
        vec![LookupCell::Input(fe(20)), LookupCell::Output(fe(0))]
    );
    cells[1] = LookupCell::Output(fe(99));
    interpreter.complete_machine_call(&mut state, &cells);
    let r = interpreter.run_until_machine_call(&mut state, &mut params, &mut data, &mut known, 0);
    assert_eq!(r, None);
    assert_eq!(params[1], LookupCell::Output(fe(100)));
}
