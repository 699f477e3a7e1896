//! The interpreter of compiled witness generation code: symbolic expressions over
//! field elements, their reverse Polish form, and the evaluation of that form.
use vstd::prelude::*;

use crate::field::{fe_add, fe_div, fe_mul, fe_neg, GoldilocksField, P};
use crate::range::RangeConstraint;
use crate::text::str_eq;
use crate::witgen::{cell_index, cell_ok, index, row_of, set_known};

verus! {

// ---------------------------------------------------------------------------
// Symbolic expressions
// ---------------------------------------------------------------------------
/// A binary operation on field elements.
#[derive(Clone, Copy, Debug, PartialEq, Eq, Structural)]
pub enum BinaryOperator {
    Add,
    Sub,
    Mul,
    /// Division in the field.
    Div,
    /// Division of the canonical representatives as integers, rounding down.
    IntegerDiv,
}

/// A unary operation on field elements.
#[derive(Clone, Copy, Debug, PartialEq, Eq, Structural)]
pub enum UnaryOperator {
    Neg,
}

/// A bit operation of a field element with a constant.
#[derive(Clone, Copy, Debug, PartialEq, Eq, Structural)]
pub enum BitOperator {
    And,
}

/// An expression over field elements with symbols of type `S`.
#[derive(Debug)]
pub enum SymbolicExpression<S> {
    Concrete(GoldilocksField),
    Symbol(S),
    BinaryOperation(Box<SymbolicExpression<S>>, BinaryOperator, Box<SymbolicExpression<S>>),
    UnaryOperation(UnaryOperator, Box<SymbolicExpression<S>>),
    BitOperation(Box<SymbolicExpression<S>>, BitOperator, u64),
}

/// A field element of a canonical representative.
pub open spec fn fe(v: int) -> GoldilocksField {
    GoldilocksField(v as u64)
}

/// The result of a binary operation, when the operands allow it.
pub open spec fn binary_value(op: BinaryOperator, l: GoldilocksField, r: GoldilocksField) -> GoldilocksField {
    match op {
        BinaryOperator::Add => fe(fe_add(l.val(), r.val())),
        BinaryOperator::Sub => fe(fe_add(l.val(), fe_neg(r.val()))),
        BinaryOperator::Mul => fe(fe_mul(l.val(), r.val())),
        BinaryOperator::Div => fe(fe_div(l.val(), r.0)),
        BinaryOperator::IntegerDiv => GoldilocksField(l.0 / r.0),
    }
}

/// Whether a binary operation can be applied: no division by zero.
pub open spec fn binary_ok(op: BinaryOperator, r: GoldilocksField) -> bool {
    (op is Div || op is IntegerDiv) ==> r.0 != 0
}

/// The value of an expression whose symbols are indices of variables.
pub open spec fn eval(e: SymbolicExpression<usize>, vars: Seq<Option<GoldilocksField>>) -> GoldilocksField
    decreases e,
{
    match e {
        SymbolicExpression::Concrete(v) => v,
        SymbolicExpression::Symbol(i) => vars[i as int]->Some_0,
        SymbolicExpression::BinaryOperation(l, op, r) => binary_value(op, eval(*l, vars), eval(*r, vars)),
        SymbolicExpression::UnaryOperation(_, x) => fe(fe_neg(eval(*x, vars).val())),
        SymbolicExpression::BitOperation(x, _, m) => GoldilocksField(eval(*x, vars).0 & m),
    }
}

/// Whether the expression can be evaluated: its constants are field elements, its
/// variables have values, and it divides by no zero.
pub open spec fn eval_ok(e: SymbolicExpression<usize>, vars: Seq<Option<GoldilocksField>>) -> bool
    decreases e,
{
    match e {
        SymbolicExpression::Concrete(v) => v.wf(),
        SymbolicExpression::Symbol(i) => i < vars.len() && vars[i as int] is Some,
        SymbolicExpression::BinaryOperation(l, op, r) => eval_ok(*l, vars) && eval_ok(*r, vars)
            && binary_ok(op, eval(*r, vars)),
        SymbolicExpression::UnaryOperation(_, x) => eval_ok(*x, vars),
        SymbolicExpression::BitOperation(x, _, _) => eval_ok(*x, vars),
    }
}

/// The values of the variables are field elements.
pub open spec fn vars_wf(vars: Seq<Option<GoldilocksField>>) -> bool {
    forall|i: int| 0 <= i < vars.len() && (#[trigger] vars[i]) is Some ==> vars[i]->Some_0.wf()
}

// ---------------------------------------------------------------------------
// Reverse Polish notation
// ---------------------------------------------------------------------------
/// An element of an expression in reverse Polish notation.
#[derive(Clone, Copy, Debug, PartialEq, Eq, Structural)]
pub enum RPNExpressionElem {
    Concrete(GoldilocksField),
    Symbol(usize),
    BinaryOperation(BinaryOperator),
    UnaryOperation(UnaryOperator),
    BitOperation(BitOperator, u64),
}

/// An expression in reverse Polish notation.
pub struct RPNExpression {
    pub elems: Vec<RPNExpressionElem>,
}

/// The reverse Polish form of an expression: operands first, then the operation.
pub open spec fn rpn_of(e: SymbolicExpression<usize>) -> Seq<RPNExpressionElem>
    decreases e,
{
    match e {
        SymbolicExpression::Concrete(v) => seq![RPNExpressionElem::Concrete(v)],
        SymbolicExpression::Symbol(i) => seq![RPNExpressionElem::Symbol(i)],
        SymbolicExpression::BinaryOperation(l, op, r) => rpn_of(*l) + rpn_of(*r) + seq![
            RPNExpressionElem::BinaryOperation(op),
        ],
        SymbolicExpression::UnaryOperation(op, x) => rpn_of(*x) + seq![RPNExpressionElem::UnaryOperation(op)],
        SymbolicExpression::BitOperation(x, op, m) => rpn_of(*x) + seq![RPNExpressionElem::BitOperation(op, m)],
    }
}

/// One element run on a stack: a constant or a variable's value is pushed; an
/// operation replaces its operands on top of the stack by its result. `None` when
/// the stack is too short, a variable has no value, a constant is not a field
/// element or a division is by zero.
pub open spec fn rpn_step(
    elem: RPNExpressionElem,
    st: Seq<GoldilocksField>,
    vars: Seq<Option<GoldilocksField>>,
) -> Option<Seq<GoldilocksField>> {
    match elem {
        RPNExpressionElem::Concrete(v) => if v.wf() {
            Some(st.push(v))
        } else {
            None
        },
        RPNExpressionElem::Symbol(i) => if i < vars.len() && vars[i as int] is Some {
            Some(st.push(vars[i as int]->Some_0))
        } else {
            None
        },
        RPNExpressionElem::BinaryOperation(op) => if st.len() >= 2 && binary_ok(op, st.last()) {
            Some(st.drop_last().drop_last().push(binary_value(op, st[st.len() - 2], st.last())))
        } else {
            None
        },
        RPNExpressionElem::UnaryOperation(_) => if st.len() >= 1 {
            Some(st.drop_last().push(fe(fe_neg(st.last().val()))))
        } else {
            None
        },
        RPNExpressionElem::BitOperation(_, m) => if st.len() >= 1 {
            Some(st.drop_last().push(GoldilocksField(st.last().0 & m)))
        } else {
            None
        },
    }
}

/// The elements run one after the other on a stack.
pub open spec fn rpn_run(
    elems: Seq<RPNExpressionElem>,
    st: Seq<GoldilocksField>,
    vars: Seq<Option<GoldilocksField>>,
) -> Option<Seq<GoldilocksField>>
    decreases elems.len(),
{
    if elems.len() == 0 {
        Some(st)
    } else {
        match rpn_run(elems.drop_last(), st, vars) {
            Some(s) => rpn_step(elems.last(), s, vars),
            None => None,
        }
    }
}

/// The values on the stack are field elements.
pub open spec fn stack_wf(st: Seq<GoldilocksField>) -> bool {
    forall|i: int| 0 <= i < st.len() ==> (#[trigger] st[i]).wf()
}

proof fn lemma_rpn_run_concat(
    a: Seq<RPNExpressionElem>,
    b: Seq<RPNExpressionElem>,
    st: Seq<GoldilocksField>,
    vars: Seq<Option<GoldilocksField>>,
)
    ensures
        rpn_run(a + b, st, vars) == match rpn_run(a, st, vars) {
            Some(s) => rpn_run(b, s, vars),
            None => None,
        },
    decreases b.len(),
{
    if b.len() == 0 {
        assert(a + b =~= a);
    } else {
        assert((a + b).drop_last() =~= a + b.drop_last());
        assert((a + b).last() == b.last());
        lemma_rpn_run_concat(a, b.drop_last(), st, vars);
    }
}

/// Running the reverse Polish form of an expression pushes the value of the
/// expression and leaves the rest of the stack as it was.
pub proof fn law_rpn_evaluates_expression(
    e: SymbolicExpression<usize>,
    st: Seq<GoldilocksField>,
    vars: Seq<Option<GoldilocksField>>,
)
    requires
        eval_ok(e, vars),
    ensures
        rpn_run(rpn_of(e), st, vars) == Some(st.push(eval(e, vars))),
    decreases e,
{
    match e {
        SymbolicExpression::Concrete(v) => {
            let es = seq![RPNExpressionElem::Concrete(v)];
            assert(es.drop_last() =~= Seq::<RPNExpressionElem>::empty());
            assert(rpn_run(es.drop_last(), st, vars) == Some(st));
            assert(es.last() == RPNExpressionElem::Concrete(v));
            assert(rpn_of(e) == es);
            assert(rpn_run(es, st, vars) == rpn_step(es.last(), st, vars));
            assert(rpn_run(rpn_of(e), st, vars) == Some(st.push(eval(e, vars))));
        },
        SymbolicExpression::Symbol(i) => {
            let es = seq![RPNExpressionElem::Symbol(i)];
            assert(es.drop_last() =~= Seq::<RPNExpressionElem>::empty());
            assert(rpn_run(es.drop_last(), st, vars) == Some(st));
            assert(es.last() == RPNExpressionElem::Symbol(i));
            assert(rpn_of(e) == es);
            assert(rpn_run(es, st, vars) == rpn_step(es.last(), st, vars));
            assert(rpn_run(rpn_of(e), st, vars) == Some(st.push(eval(e, vars))));
        },
        SymbolicExpression::BinaryOperation(l, op, r) => {
            law_rpn_evaluates_expression(*l, st, vars);
            let s1 = st.push(eval(*l, vars));
            law_rpn_evaluates_expression(*r, s1, vars);
            let s2 = s1.push(eval(*r, vars));
            lemma_rpn_run_concat(rpn_of(*l), rpn_of(*r), st, vars);
            let tail = seq![RPNExpressionElem::BinaryOperation(op)];
            lemma_rpn_run_concat(rpn_of(*l) + rpn_of(*r), tail, st, vars);
            assert(tail.drop_last() =~= Seq::<RPNExpressionElem>::empty());
            assert(s2.drop_last().drop_last() =~= st);
            assert(s2[s2.len() - 2] == eval(*l, vars));
            assert(rpn_run(tail.drop_last(), s2, vars) == Some(s2));
            assert(rpn_run(tail, s2, vars) == rpn_step(tail.last(), s2, vars));
            assert(rpn_of(e) == rpn_of(*l) + rpn_of(*r) + tail);
            assert(rpn_run(rpn_of(e), st, vars) == Some(st.push(eval(e, vars))));
        },
        SymbolicExpression::UnaryOperation(op, x) => {
            law_rpn_evaluates_expression(*x, st, vars);
            let tail = seq![RPNExpressionElem::UnaryOperation(op)];
            lemma_rpn_run_concat(rpn_of(*x), tail, st, vars);
            assert(tail.drop_last() =~= Seq::<RPNExpressionElem>::empty());
            assert(st.push(eval(*x, vars)).drop_last() =~= st);
            assert(rpn_run(tail.drop_last(), st.push(eval(*x, vars)), vars) == Some(st.push(eval(*x, vars))));
            assert(rpn_run(tail, st.push(eval(*x, vars)), vars) == rpn_step(tail.last(), st.push(eval(*x, vars)), vars));
            assert(rpn_run(rpn_of(e), st, vars) == Some(st.push(eval(e, vars))));
        },
        SymbolicExpression::BitOperation(x, op, m) => {
            law_rpn_evaluates_expression(*x, st, vars);
            let tail = seq![RPNExpressionElem::BitOperation(op, m)];
            lemma_rpn_run_concat(rpn_of(*x), tail, st, vars);
            assert(tail.drop_last() =~= Seq::<RPNExpressionElem>::empty());
            assert(st.push(eval(*x, vars)).drop_last() =~= st);
            assert(rpn_run(tail.drop_last(), st.push(eval(*x, vars)), vars) == Some(st.push(eval(*x, vars))));
            assert(rpn_run(tail, st.push(eval(*x, vars)), vars) == rpn_step(tail.last(), st.push(eval(*x, vars)), vars));
            assert(rpn_run(rpn_of(e), st, vars) == Some(st.push(eval(e, vars))));
        },
    }
}

fn push_rpn(e: &SymbolicExpression<usize>, elems: &mut Vec<RPNExpressionElem>)
    ensures
        final(elems)@ == old(elems)@ + rpn_of(*e),
    decreases e,
{
    match e {
        SymbolicExpression::Concrete(v) => {
            elems.push(RPNExpressionElem::Concrete(*v));
        },
        SymbolicExpression::Symbol(i) => {
            elems.push(RPNExpressionElem::Symbol(*i));
        },
        SymbolicExpression::BinaryOperation(l, op, r) => {
            push_rpn(l, elems);
            push_rpn(r, elems);
            elems.push(RPNExpressionElem::BinaryOperation(*op));
        },
        SymbolicExpression::UnaryOperation(op, x) => {
            push_rpn(x, elems);
            elems.push(RPNExpressionElem::UnaryOperation(*op));
        },
        SymbolicExpression::BitOperation(x, op, m) => {
            push_rpn(x, elems);
            elems.push(RPNExpressionElem::BitOperation(*op, *m));
        },
    }
    proof {
        assert(final(elems)@ =~= old(elems)@ + rpn_of(*e));
    }
}

proof fn lemma_rpn_run_prefix(
    elems: Seq<RPNExpressionElem>,
    st: Seq<GoldilocksField>,
    vars: Seq<Option<GoldilocksField>>,
    i: int,
)
    requires
        0 <= i <= elems.len(),
        rpn_run(elems, st, vars) is Some,
    ensures
        rpn_run(elems.take(i), st, vars) is Some,
    decreases elems.len() - i,
{
    if i < elems.len() {
        lemma_rpn_run_prefix(elems, st, vars, i + 1);
        assert(elems.take(i + 1).drop_last() =~= elems.take(i));
    } else {
        assert(elems.take(i) =~= elems);
    }
}

proof fn lemma_rpn_step_wf(
    elem: RPNExpressionElem,
    st: Seq<GoldilocksField>,
    vars: Seq<Option<GoldilocksField>>,
)
    requires
        stack_wf(st),
        vars_wf(vars),
        rpn_step(elem, st, vars) is Some,
    ensures
        stack_wf(rpn_step(elem, st, vars)->Some_0),
{
    let r = rpn_step(elem, st, vars)->Some_0;
    match elem {
        RPNExpressionElem::BinaryOperation(op) => {
            let l = st[st.len() - 2];
            let x = st.last();
            assert(l.wf() && x.wf());
            vstd::arithmetic::div_mod::lemma_mod_bound(l.val() + x.val(), P as int);
            vstd::arithmetic::div_mod::lemma_mod_bound(P as int - x.val(), P as int);
            vstd::arithmetic::div_mod::lemma_mod_bound(l.val() + fe_neg(x.val()), P as int);
            vstd::arithmetic::div_mod::lemma_mod_bound(l.val() * x.val(), P as int);
            vstd::arithmetic::div_mod::lemma_mod_bound(l.val() * crate::field::fe_inv(x.0), P as int);
            if op is IntegerDiv {
                assert(l.0 / x.0 <= l.0) by {
                    vstd::arithmetic::div_mod::lemma_div_is_ordered_by_denominator(l.0 as int, 1, x.0 as int);
                }
            }
            assert forall|i: int| 0 <= i < r.len() implies (#[trigger] r[i]).wf() by {
                if i < r.len() - 1 {
                    assert(r[i] == st[i]);
                }
            }
        },
        RPNExpressionElem::UnaryOperation(_) => {
            vstd::arithmetic::div_mod::lemma_mod_bound(P as int - st.last().val(), P as int);
            assert forall|i: int| 0 <= i < r.len() implies (#[trigger] r[i]).wf() by {
                if i < r.len() - 1 {
                    assert(r[i] == st[i]);
                }
            }
        },
        RPNExpressionElem::BitOperation(_, m) => {
            let x = st.last();
            assert(x.wf());
            let xv = x.0;
            assert(xv & m <= xv) by (bit_vector);
            assert forall|i: int| 0 <= i < r.len() implies (#[trigger] r[i]).wf() by {
                if i < r.len() - 1 {
                    assert(r[i] == st[i]);
                }
            }
        },
        _ => {
            assert forall|i: int| 0 <= i < r.len() implies (#[trigger] r[i]).wf() by {
                if i < r.len() - 1 {
                    assert(r[i] == st[i]);
                }
            }
        },
    }
}

impl RPNExpression {
    /// The reverse Polish form of an expression.
    pub fn from(expr: &SymbolicExpression<usize>) -> (r: RPNExpression)
        ensures
            r.elems@ == rpn_of(*expr),
    {
        let mut elems: Vec<RPNExpressionElem> = Vec::new();
        push_rpn(expr, &mut elems);
        proof {
            assert(elems@ =~= rpn_of(*expr));
        }
        RPNExpression { elems }
    }

    /// Runs the expression on the stack, given the values of the variables, and
    /// takes the result off the stack.
    pub fn evaluate(&self, stack: &mut Vec<GoldilocksField>, vars: &Vec<Option<GoldilocksField>>) -> (r:
        GoldilocksField)
        requires
            stack_wf(old(stack)@),
            vars_wf(vars@),
            rpn_run(self.elems@, old(stack)@, vars@) matches Some(s) && s.len() > 0,
        ensures
            rpn_run(self.elems@, old(stack)@, vars@) == Some(final(stack)@.push(r)),
            r.wf(),
            stack_wf(final(stack)@),
    {
        let ghost st0 = stack@;
        let n = self.elems.len();
        let mut i: usize = 0;
        proof {
            assert(self.elems@.take(0) =~= Seq::<RPNExpressionElem>::empty());
        }
        while i < n
            invariant
                i <= n,
                n == self.elems@.len(),
                vars_wf(vars@),
                rpn_run(self.elems@, st0, vars@) is Some,
                rpn_run(self.elems@.take(i as int), st0, vars@) == Some(stack@),
                stack_wf(stack@),
            decreases n - i,
        {
            proof {
                lemma_rpn_run_prefix(self.elems@, st0, vars@, i + 1);
                assert(self.elems@.take(i + 1).drop_last() =~= self.elems@.take(i as int));
                assert(self.elems@.take(i + 1).last() == self.elems@[i as int]);
                lemma_rpn_step_wf(self.elems@[i as int], stack@, vars@);
            }
            let ghost before = stack@;
            match self.elems[i] {
                RPNExpressionElem::Concrete(v) => {
                    stack.push(v);
                },
                RPNExpressionElem::Symbol(idx) => {
                    let v = match vars[idx] {
                        Some(v) => v,
                        None => {
                            proof {
                                assert(false);
                            }
                            GoldilocksField(0)
                        },
                    };
                    stack.push(v);
                },
                RPNExpressionElem::BinaryOperation(op) => {
                    let right = stack.pop().unwrap();
                    let left = stack.pop().unwrap();
                    let result = match op {
                        BinaryOperator::Add => left.add(right),
                        BinaryOperator::Sub => left.sub(right),
                        BinaryOperator::Mul => left.mul(right),
                        BinaryOperator::Div => left.div(right),
                        BinaryOperator::IntegerDiv => GoldilocksField::from_u64(
                            left.to_integer() / right.to_integer(),
                        ),
                    };
                    proof {
                        if op is IntegerDiv {
                            assert(left.0 / right.0 <= left.0) by {
                                vstd::arithmetic::div_mod::lemma_div_is_ordered_by_denominator(left.0 as int, 1, right.0 as int);
                            }
                            vstd::arithmetic::div_mod::lemma_small_mod((left.0 / right.0) as nat, P as nat);
                        }
                        assert(before.drop_last().drop_last() =~= stack@);
                        assert(before[before.len() - 2] == left);
                    }
                    stack.push(result);
                },
                RPNExpressionElem::UnaryOperation(_) => {
                    let inner = stack.pop().unwrap();
                    stack.push(inner.neg());
                },
                RPNExpressionElem::BitOperation(_, m) => {
                    let inner = stack.pop().unwrap();
                    let iv = inner.to_integer();
                    let x = iv & m;
                    proof {
                        assert(x <= iv) by (bit_vector)
                            requires
                                x == iv & m,
                        ;
                        vstd::arithmetic::div_mod::lemma_small_mod(x as nat, P as nat);
                    }
                    stack.push(GoldilocksField::from_u64(x));
                },
            }
            proof {
                assert(stack@ =~= rpn_step(self.elems@[i as int], before, vars@)->Some_0);
            }
            i = i + 1;
        }
        proof {
            assert(self.elems@.take(n as int) =~= self.elems@);
            assert(stack@.len() > 0);
            assert(stack@[stack@.len() - 1].wf());
        }
        let r = stack.pop().unwrap();
        proof {
            assert(stack@.push(r) =~= old(stack)@.take(0) + rpn_run(self.elems@, st0, vars@)->Some_0) by {
                assert(old(stack)@.take(0) =~= Seq::<GoldilocksField>::empty());
            }
        }
        r
    }
}


// ---------------------------------------------------------------------------
// Variables
// ---------------------------------------------------------------------------
/// A cell of the trace: a column, by name and id, and a row relative to the
/// current row.
pub struct Cell {
    pub column_name: String,
    pub id: u64,
    pub row_offset: i32,
}

impl View for Cell {
    type V = (Seq<char>, u64, i32);

    open spec fn view(&self) -> (Seq<char>, u64, i32) {
        (self.column_name@, self.id, self.row_offset)
    }
}

/// A value returned by a call to another machine: the identity of the call, the
/// row it was made on and the position of the value among the call's values.
#[derive(Clone, Copy, Debug, PartialEq, Eq, Structural)]
pub struct MachineCallVariable {
    pub identity_id: u64,
    pub row_offset: i32,
    pub index: usize,
}

/// A variable of witness generation.
pub enum Variable {
    /// A cell of the trace.
    Cell(Cell),
    /// A parameter of the machine call being answered.
    Param(usize),
    /// A value returned by a call to another machine.
    MachineCallReturnValue(MachineCallVariable),
}

/// The mathematical value of a `Variable`.
pub enum VariableV {
    Cell((Seq<char>, u64, i32)),
    Param(usize),
    MachineCallReturnValue(MachineCallVariable),
}

impl View for Variable {
    type V = VariableV;

    open spec fn view(&self) -> VariableV {
        match self {
            Variable::Cell(c) => VariableV::Cell(c@),
            Variable::Param(i) => VariableV::Param(*i),
            Variable::MachineCallReturnValue(v) => VariableV::MachineCallReturnValue(*v),
        }
    }
}

/// A copy of a cell.
pub fn copy_cell(c: &Cell) -> (r: Cell)
    ensures
        r@ == c@,
{
    Cell { column_name: c.column_name.clone(), id: c.id, row_offset: c.row_offset }
}

/// A copy of a variable.
pub fn copy_variable(v: &Variable) -> (r: Variable)
    ensures
        r@ == v@,
{
    match v {
        Variable::Cell(c) => Variable::Cell(copy_cell(c)),
        Variable::Param(i) => Variable::Param(*i),
        Variable::MachineCallReturnValue(m) => Variable::MachineCallReturnValue(*m),
    }
}

/// Whether two variables are the same.
pub fn same_variable(a: &Variable, b: &Variable) -> (r: bool)
    ensures
        r == (a@ == b@),
{
    match (a, b) {
        (Variable::Cell(x), Variable::Cell(y)) => x.id == y.id && x.row_offset == y.row_offset && str_eq(
            x.column_name.as_str(),
            y.column_name.as_str(),
        ),
        (Variable::Param(x), Variable::Param(y)) => *x == *y,
        (Variable::MachineCallReturnValue(x), Variable::MachineCallReturnValue(y)) => x.identity_id
            == y.identity_id && x.row_offset == y.row_offset && x.index == y.index,
        _ => false,
    }
}

/// The position of `v` in `vs`, if it occurs there.
pub open spec fn position(vs: Seq<VariableV>, v: VariableV) -> Option<int> {
    if exists|i: int| 0 <= i < vs.len() && vs[i] == v {
        Some(choose|i: int| 0 <= i < vs.len() && vs[i] == v)
    } else {
        None
    }
}

/// No variable occurs twice.
pub open spec fn distinct(vs: Seq<VariableV>) -> bool {
    forall|i: int, j: int| 0 <= i < vs.len() && 0 <= j < vs.len() && i != j ==> vs[i] != vs[j]
}

/// Mapping `v`: its position if it has one, else the next position, at which it is
/// added.
pub open spec fn mapped(vs: Seq<VariableV>, v: VariableV) -> (Seq<VariableV>, int) {
    match position(vs, v) {
        Some(i) => (vs, i),
        None => (vs.push(v), vs.len() as int),
    }
}

/// Every variable of an expression mapped to its index, from left to right.
pub open spec fn map_expr_spec(vs: Seq<VariableV>, e: SymbolicExpression<Variable>) -> (
    Seq<VariableV>,
    SymbolicExpression<usize>,
)
    decreases e,
{
    match e {
        SymbolicExpression::Concrete(c) => (vs, SymbolicExpression::Concrete(c)),
        SymbolicExpression::Symbol(x) => {
            let (v1, i) = mapped(vs, x@);
            (v1, SymbolicExpression::Symbol(i as usize))
        },
        SymbolicExpression::BinaryOperation(l, op, r) => {
            let (v1, l1) = map_expr_spec(vs, *l);
            let (v2, r1) = map_expr_spec(v1, *r);
            (v2, SymbolicExpression::BinaryOperation(Box::new(l1), op, Box::new(r1)))
        },
        SymbolicExpression::UnaryOperation(op, x) => {
            let (v1, x1) = map_expr_spec(vs, *x);
            (v1, SymbolicExpression::UnaryOperation(op, Box::new(x1)))
        },
        SymbolicExpression::BitOperation(x, op, m) => {
            let (v1, x1) = map_expr_spec(vs, *x);
            (v1, SymbolicExpression::BitOperation(Box::new(x1), op, m))
        },
    }
}

/// Assigns each variable a unique index, in the order in which the variables are
/// first seen, so that values can be kept in sequential memory.
pub struct VariableMapper {
    var_idx: Vec<Variable>,
}

impl VariableMapper {
    /// No variable occurs twice.
    #[verifier::type_invariant]
    closed spec fn wf(self) -> bool {
        distinct(self.vars())
    }

    /// The variables in the order of their indices.
    pub closed spec fn vars(self) -> Seq<VariableV> {
        self.var_idx@.map_values(|v: Variable| v@)
    }

    /// No variable mapped yet.
    pub fn new() -> (r: Self)
        ensures
            r.vars() == Seq::<VariableV>::empty(),
    {
        let r = VariableMapper { var_idx: Vec::new() };
        proof {
            assert(r.vars() =~= Seq::<VariableV>::empty());
        }
        r
    }

    /// The number of mapped variables.
    pub fn var_count(&self) -> (r: usize)
        ensures
            r == self.vars().len(),
    {
        self.var_idx.len()
    }

    fn find(&self, var: &Variable) -> (r: Option<usize>)
        ensures
            r matches Some(i) ==> position(self.vars(), var@) == Some(i as int),
            r is None ==> position(self.vars(), var@) is None,
    {
        proof {
            use_type_invariant(self);
        }
        let n = self.var_idx.len();
        for i in 0..n
            invariant
                n == self.var_idx@.len(),
                distinct(self.vars()),
                forall|j: int| 0 <= j < i ==> self.vars()[j] != var@,
        {
            if same_variable(&self.var_idx[i], var) {
                proof {
                    assert(self.vars()[i as int] == var@);
                    let j = choose|j: int| 0 <= j < self.vars().len() && self.vars()[j] == var@;
                    assert(j == i);
                }
                return Some(i);
            }
        }
        None
    }

    /// The index of the variable; a variable seen for the first time gets the next
    /// free index.
    pub fn map_var(&mut self, var: &Variable) -> (r: usize)
        ensures
            (final(self).vars(), r as int) == mapped(old(self).vars(), var@),
    {
        proof {
            use_type_invariant(&*self);
        }
        match self.find(var) {
            Some(i) => i,
            None => {
                let idx = self.var_idx.len();
                let mut vars = Vec::new();
                std::mem::swap(&mut vars, &mut self.var_idx);
                let ghost before = vars@.map_values(|v: Variable| v@);
                vars.push(copy_variable(var));
                proof {
                    let after = vars@.map_values(|v: Variable| v@);
                    assert(after =~= before.push(var@));
                    assert forall|i: int, j: int| 0 <= i < after.len() && 0 <= j < after.len() && i != j implies after[i]
                        != after[j] by {
                        if i < before.len() && j < before.len() {
                            assert(after[i] == before[i] && after[j] == before[j]);
                        }
                    }
                }
                self.var_idx = vars;
                proof {
                    assert(self.vars() =~= old(self).vars().push(var@));
                }
                idx
            },
        }
    }

    /// The index of the variable, if it has one.
    pub fn get_var(&self, var: &Variable) -> (r: Option<usize>)
        ensures
            r == match position(self.vars(), var@) {
                Some(i) => Some(i as usize),
                None => None::<usize>,
            },
    {
        self.find(var)
    }

    /// The expression with every variable replaced by its index.
    pub fn map_expr(&mut self, expr: &SymbolicExpression<Variable>) -> (r: SymbolicExpression<usize>)
        ensures
            (final(self).vars(), r) == map_expr_spec(old(self).vars(), *expr),
        decreases expr,
    {
        match expr {
            SymbolicExpression::Concrete(c) => SymbolicExpression::Concrete(*c),
            SymbolicExpression::Symbol(x) => SymbolicExpression::Symbol(self.map_var(x)),
            SymbolicExpression::BinaryOperation(l, op, r) => {
                let l1 = self.map_expr(l);
                let r1 = self.map_expr(r);
                SymbolicExpression::BinaryOperation(Box::new(l1), *op, Box::new(r1))
            },
            SymbolicExpression::UnaryOperation(op, x) => {
                let x1 = self.map_expr(x);
                SymbolicExpression::UnaryOperation(*op, Box::new(x1))
            },
            SymbolicExpression::BitOperation(x, op, m) => {
                let x1 = self.map_expr(x);
                SymbolicExpression::BitOperation(Box::new(x1), *op, *m)
            },
        }
    }

    /// The reverse Polish form of the expression with every variable replaced by its
    /// index.
    pub fn map_expr_to_rpn(&mut self, expr: &SymbolicExpression<Variable>) -> (r: RPNExpression)
        ensures
            final(self).vars() == map_expr_spec(old(self).vars(), *expr).0,
            r.elems@ == rpn_of(map_expr_spec(old(self).vars(), *expr).1),
    {
        let e = self.map_expr(expr);
        RPNExpression::from(&e)
    }
}


// ---------------------------------------------------------------------------
// Effects and their compilation
// ---------------------------------------------------------------------------
/// A check that two expressions are equal, or that they differ.
pub struct Assertion {
    pub lhs: SymbolicExpression<Variable>,
    pub rhs: SymbolicExpression<Variable>,
    pub expected_equal: bool,
}

/// An argument of a call to another machine: a value that is known before the
/// call, or a variable that the call determines.
pub enum MachineCallArgument<V> {
    Known(SymbolicExpression<V>),
    Unknown(V),
}

/// An effect derived by witness generation.
pub enum Effect {
    /// A variable gets the value of an expression.
    Assignment(Variable, SymbolicExpression<Variable>),
    /// A range constraint on a variable; compiled code holds none.
    RangeConstraint(Variable, RangeConstraint),
    /// A check on values.
    Assertion(Assertion),
    /// A call to another machine, by the id of its identity.
    MachineCall(u64, Vec<MachineCallArgument<Variable>>),
}

/// The variables whose values an effect determines.
pub open spec fn written_vars(e: Effect) -> Seq<Variable> {
    match e {
        Effect::Assignment(v, _) => seq![v],
        Effect::MachineCall(_, args) => unknown_vars(args@),
        _ => seq![],
    }
}

/// The variables of the unknown arguments of a machine call, in order.
pub open spec fn unknown_vars(args: Seq<MachineCallArgument<Variable>>) -> Seq<Variable>
    decreases args.len(),
{
    if args.len() == 0 {
        seq![]
    } else {
        let rest = unknown_vars(args.drop_last());
        match args.last() {
            MachineCallArgument::Unknown(v) => rest.push(v),
            MachineCallArgument::Known(_) => rest,
        }
    }
}

/// An instruction of the interpreter; variables are replaced by their indices.
pub enum InterpreterAction {
    /// The variable gets the value of the cell.
    ReadCell(usize, Cell),
    /// The variable gets the value of the parameter, an input of the call.
    ReadParam(usize, usize),
    /// The variable gets the value of the expression.
    AssignExpression(usize, RPNExpression),
    /// The cell gets the value of the variable.
    WriteCell(usize, Cell),
    /// The parameter, an output of the call, gets the value of the variable.
    WriteParam(usize, usize),
    /// The cell is marked as known.
    WriteKnown(Cell),
    /// A call to another machine; the variables get the values of its unknown
    /// arguments, in order.
    MachineCall(Vec<usize>, u64, Vec<MachineCallArgument<usize>>),
    /// The values of the two expressions are equal, or differ if the flag is unset.
    Assertion(RPNExpression, RPNExpression, bool),
}

/// The mathematical value of an `InterpreterAction`.
pub enum ActionV {
    ReadCell(usize, (Seq<char>, u64, i32)),
    ReadParam(usize, usize),
    AssignExpression(usize, Seq<RPNExpressionElem>),
    WriteCell(usize, (Seq<char>, u64, i32)),
    WriteParam(usize, usize),
    WriteKnown((Seq<char>, u64, i32)),
    MachineCall(Seq<usize>, u64, Seq<MachineCallArgument<usize>>),
    Assertion(Seq<RPNExpressionElem>, Seq<RPNExpressionElem>, bool),
}

impl View for InterpreterAction {
    type V = ActionV;

    open spec fn view(&self) -> ActionV {
        match self {
            InterpreterAction::ReadCell(i, c) => ActionV::ReadCell(*i, c@),
            InterpreterAction::ReadParam(i, p) => ActionV::ReadParam(*i, *p),
            InterpreterAction::AssignExpression(i, e) => ActionV::AssignExpression(*i, e.elems@),
            InterpreterAction::WriteCell(i, c) => ActionV::WriteCell(*i, c@),
            InterpreterAction::WriteParam(i, p) => ActionV::WriteParam(*i, *p),
            InterpreterAction::WriteKnown(c) => ActionV::WriteKnown(c@),
            InterpreterAction::MachineCall(vs, id, args) => ActionV::MachineCall(vs@, *id, args@),
            InterpreterAction::Assertion(l, r, eq) => ActionV::Assertion(l.elems@, r.elems@, *eq),
        }
    }
}

/// The views of a sequence of actions.
pub open spec fn actions_view(v: Seq<InterpreterAction>) -> Seq<ActionV> {
    v.map_values(|a: InterpreterAction| a@)
}

/// Reading the known inputs: each gets an index and is read from its cell or
/// parameter.
pub open spec fn load_spec(vs: Seq<VariableV>, known: Seq<Variable>) -> (Seq<VariableV>, Seq<ActionV>)
    decreases known.len(),
{
    if known.len() == 0 {
        (vs, seq![])
    } else {
        let (v1, acts) = load_spec(vs, known.drop_last());
        let x = known.last();
        let (v2, i) = mapped(v1, x@);
        let a = match x {
            Variable::Cell(c) => ActionV::ReadCell(i as usize, c@),
            Variable::Param(p) => ActionV::ReadParam(i as usize, p),
            Variable::MachineCallReturnValue(_) => ActionV::ReadParam(i as usize, 0),
        };
        (v2, acts.push(a))
    }
}

/// The indices of the unknown arguments of a machine call.
pub open spec fn map_unknowns(vs: Seq<VariableV>, args: Seq<MachineCallArgument<Variable>>) -> (
    Seq<VariableV>,
    Seq<usize>,
)
    decreases args.len(),
{
    if args.len() == 0 {
        (vs, seq![])
    } else {
        let (v1, idx) = map_unknowns(vs, args.drop_last());
        match args.last() {
            MachineCallArgument::Unknown(x) => {
                let (v2, i) = mapped(v1, x@);
                (v2, idx.push(i as usize))
            },
            MachineCallArgument::Known(_) => (v1, idx),
        }
    }
}

/// The arguments of a machine call with their variables replaced by indices; an
/// unknown argument becomes a placeholder.
pub open spec fn map_args(vs: Seq<VariableV>, args: Seq<MachineCallArgument<Variable>>) -> (
    Seq<VariableV>,
    Seq<MachineCallArgument<usize>>,
)
    decreases args.len(),
{
    if args.len() == 0 {
        (vs, seq![])
    } else {
        let (v1, out) = map_args(vs, args.drop_last());
        match args.last() {
            MachineCallArgument::Unknown(_) => (v1, out.push(MachineCallArgument::Unknown(0usize))),
            MachineCallArgument::Known(e) => {
                let (v2, e1) = map_expr_spec(v1, e);
                (v2, out.push(MachineCallArgument::Known(e1)))
            },
        }
    }
}

/// The action of an effect.
pub open spec fn effect_spec(vs: Seq<VariableV>, eff: Effect) -> (Seq<VariableV>, ActionV) {
    match eff {
        Effect::Assignment(x, e) => {
            let (v1, i) = mapped(vs, x@);
            let (v2, e1) = map_expr_spec(v1, e);
            (v2, ActionV::AssignExpression(i as usize, rpn_of(e1)))
        },
        Effect::Assertion(a) => {
            let (v1, l) = map_expr_spec(vs, a.lhs);
            let (v2, r) = map_expr_spec(v1, a.rhs);
            (v2, ActionV::Assertion(rpn_of(l), rpn_of(r), a.expected_equal))
        },
        Effect::MachineCall(id, args) => {
            let (v1, results) = map_unknowns(vs, args@);
            let (v2, margs) = map_args(v1, args@);
            (v2, ActionV::MachineCall(results, id, margs))
        },
        Effect::RangeConstraint(..) => (vs, ActionV::AssignExpression(0, seq![])),
    }
}

/// The actions of the effects, in order.
pub open spec fn process_spec(vs: Seq<VariableV>, effects: Seq<Effect>) -> (Seq<VariableV>, Seq<ActionV>)
    decreases effects.len(),
{
    if effects.len() == 0 {
        (vs, seq![])
    } else {
        let (v1, acts) = process_spec(vs, effects.drop_last());
        let (v2, a) = effect_spec(v1, effects.last());
        (v2, acts.push(a))
    }
}

/// Writing a determined variable back: a cell is written and marked as known, a
/// parameter is written, a returned value stays internal.
pub open spec fn write_var_spec(vs: Seq<VariableV>, x: Variable) -> Seq<ActionV> {
    let i = position(vs, x@)->Some_0 as usize;
    match x {
        Variable::Cell(c) => seq![ActionV::WriteCell(i, c@), ActionV::WriteKnown(c@)],
        Variable::Param(p) => seq![ActionV::WriteParam(i, p)],
        Variable::MachineCallReturnValue(_) => seq![],
    }
}

/// Writing back a sequence of variables.
pub open spec fn write_vars_spec(vs: Seq<VariableV>, xs: Seq<Variable>) -> Seq<ActionV>
    decreases xs.len(),
{
    if xs.len() == 0 {
        seq![]
    } else {
        write_vars_spec(vs, xs.drop_last()) + write_var_spec(vs, xs.last())
    }
}

/// Writing back the variables that the effects determine.
pub open spec fn write_spec(vs: Seq<VariableV>, effects: Seq<Effect>) -> Seq<ActionV>
    decreases effects.len(),
{
    if effects.len() == 0 {
        seq![]
    } else {
        write_spec(vs, effects.drop_last()) + write_vars_spec(vs, written_vars(effects.last()))
    }
}

/// The variables and the actions of compiled effects: the known inputs are read,
/// the effects run, and the determined variables are written back.
pub open spec fn compiled(known: Seq<Variable>, effects: Seq<Effect>) -> (Seq<VariableV>, Seq<ActionV>) {
    let (v1, a1) = load_spec(Seq::empty(), known);
    let (v2, a2) = process_spec(v1, effects);
    (v2, a1 + a2 + write_spec(v2, effects))
}

/// The known inputs can be read: none is a value returned by a machine call.
pub open spec fn inputs_ok(known: Seq<Variable>) -> bool {
    forall|i: int| 0 <= i < known.len() ==> !(known[i] is MachineCallReturnValue)
}

/// The effects can be compiled: none is a pure range constraint.
pub open spec fn effects_ok(effects: Seq<Effect>) -> bool {
    forall|i: int| 0 <= i < effects.len() ==> !(effects[i] is RangeConstraint)
}

/// `w` starts with `vs`.
pub open spec fn extends(vs: Seq<VariableV>, w: Seq<VariableV>) -> bool {
    vs.len() <= w.len() && forall|k: int| 0 <= k < vs.len() ==> w[k] == vs[k]
}

proof fn lemma_mapped(vs: Seq<VariableV>, v: VariableV)
    ensures
        extends(vs, mapped(vs, v).0),
        mapped(vs, v).0.contains(v),
{
    if position(vs, v) is None {
        assert(mapped(vs, v).0[vs.len() as int] == v);
    } else {
        let i = choose|i: int| 0 <= i < vs.len() && vs[i] == v;
        assert(vs[i] == v);
    }
}

proof fn lemma_extends_contains(vs: Seq<VariableV>, w: Seq<VariableV>, v: VariableV)
    requires
        extends(vs, w),
        vs.contains(v),
    ensures
        w.contains(v),
{
    let i = choose|i: int| 0 <= i < vs.len() && vs[i] == v;
    assert(w[i] == v);
}

proof fn lemma_map_expr_extends(vs: Seq<VariableV>, e: SymbolicExpression<Variable>)
    ensures
        extends(vs, map_expr_spec(vs, e).0),
    decreases e,
{
    match e {
        SymbolicExpression::Concrete(_) => {},
        SymbolicExpression::Symbol(x) => {
            lemma_mapped(vs, x@);
        },
        SymbolicExpression::BinaryOperation(l, _, r) => {
            lemma_map_expr_extends(vs, *l);
            lemma_map_expr_extends(map_expr_spec(vs, *l).0, *r);
        },
        SymbolicExpression::UnaryOperation(_, x) => {
            lemma_map_expr_extends(vs, *x);
        },
        SymbolicExpression::BitOperation(x, _, _) => {
            lemma_map_expr_extends(vs, *x);
        },
    }
}

proof fn lemma_map_unknowns(vs: Seq<VariableV>, args: Seq<MachineCallArgument<Variable>>)
    ensures
        extends(vs, map_unknowns(vs, args).0),
        forall|k: int|
            0 <= k < unknown_vars(args).len() ==> map_unknowns(vs, args).0.contains(
                (#[trigger] unknown_vars(args)[k])@,
            ),
    decreases args.len(),
{
    if args.len() > 0 {
        let pre = args.drop_last();
        lemma_map_unknowns(vs, pre);
        let v1 = map_unknowns(vs, pre).0;
        match args.last() {
            MachineCallArgument::Unknown(x) => {
                lemma_mapped(v1, x@);
                let v2 = mapped(v1, x@).0;
                assert forall|k: int| 0 <= k < unknown_vars(args).len() implies v2.contains(
                    (#[trigger] unknown_vars(args)[k])@,
                ) by {
                    if k < unknown_vars(pre).len() {
                        assert(unknown_vars(args)[k] == unknown_vars(pre)[k]);
                        lemma_extends_contains(v1, v2, unknown_vars(pre)[k]@);
                    }
                }
            },
            MachineCallArgument::Known(_) => {},
        }
    }
}

proof fn lemma_map_args_extends(vs: Seq<VariableV>, args: Seq<MachineCallArgument<Variable>>)
    ensures
        extends(vs, map_args(vs, args).0),
    decreases args.len(),
{
    if args.len() > 0 {
        lemma_map_args_extends(vs, args.drop_last());
        match args.last() {
            MachineCallArgument::Known(e) => {
                lemma_map_expr_extends(map_args(vs, args.drop_last()).0, e);
            },
            MachineCallArgument::Unknown(_) => {},
        }
    }
}

proof fn lemma_effect(vs: Seq<VariableV>, eff: Effect)
    ensures
        extends(vs, effect_spec(vs, eff).0),
        forall|k: int|
            0 <= k < written_vars(eff).len() ==> effect_spec(vs, eff).0.contains(
                (#[trigger] written_vars(eff)[k])@,
            ),
{
    match eff {
        Effect::Assignment(x, e) => {
            lemma_mapped(vs, x@);
            let v1 = mapped(vs, x@).0;
            lemma_map_expr_extends(v1, e);
            lemma_extends_contains(v1, map_expr_spec(v1, e).0, x@);
            assert(written_vars(eff)[0] == x);
        },
        Effect::Assertion(a) => {
            lemma_map_expr_extends(vs, a.lhs);
            lemma_map_expr_extends(map_expr_spec(vs, a.lhs).0, a.rhs);
        },
        Effect::MachineCall(_, args) => {
            lemma_map_unknowns(vs, args@);
            let v1 = map_unknowns(vs, args@).0;
            lemma_map_args_extends(v1, args@);
            let v2 = map_args(v1, args@).0;
            assert forall|k: int| 0 <= k < written_vars(eff).len() implies v2.contains(
                (#[trigger] written_vars(eff)[k])@,
            ) by {
                lemma_extends_contains(v1, v2, unknown_vars(args@)[k]@);
            }
        },
        Effect::RangeConstraint(..) => {},
    }
}

proof fn lemma_process(vs: Seq<VariableV>, effects: Seq<Effect>)
    ensures
        extends(vs, process_spec(vs, effects).0),
        forall|j: int, k: int|
            0 <= j < effects.len() && 0 <= k < written_vars(effects[j]).len() ==> process_spec(
                vs,
                effects,
            ).0.contains((#[trigger] written_vars(effects[j])[k])@),
    decreases effects.len(),
{
    if effects.len() > 0 {
        let pre = effects.drop_last();
        lemma_process(vs, pre);
        let v1 = process_spec(vs, pre).0;
        lemma_effect(v1, effects.last());
        let v2 = effect_spec(v1, effects.last()).0;
        assert forall|j: int, k: int|
            0 <= j < effects.len() && 0 <= k < written_vars(effects[j]).len() implies v2.contains(
            (#[trigger] written_vars(effects[j])[k])@,
        ) by {
            if j < effects.len() - 1 {
                assert(effects[j] == pre[j]);
                lemma_extends_contains(v1, v2, written_vars(pre[j])[k]@);
            }
        }
    }
}


/// Witness generation effects compiled into actions of an interpreter; variables
/// are replaced by dense indices.
pub struct EffectsInterpreter {
    first_column_id: u64,
    column_count: usize,
    var_count: usize,
    actions: Vec<InterpreterAction>,
}

proof fn lemma_unknown_member(args: Seq<MachineCallArgument<Variable>>, i: int)
    requires
        0 <= i < args.len(),
        args[i] is Unknown,
    ensures
        unknown_vars(args).contains(args[i]->Unknown_0),
    decreases args.len(),
{
    let pre = args.drop_last();
    if i < args.len() - 1 {
        assert(pre[i] == args[i]);
        lemma_unknown_member(pre, i);
        let k = choose|k: int| 0 <= k < unknown_vars(pre).len() && unknown_vars(pre)[k] == args[i]->Unknown_0;
        assert(unknown_vars(args)[k] == unknown_vars(pre)[k]);
    } else {
        assert(args.last() == args[i]);
        assert(unknown_vars(args)[unknown_vars(pre).len() as int] == args[i]->Unknown_0);
    }
}

/// Every variable that an effect determines has an index.
pub open spec fn written_have_indices(vs: Seq<VariableV>, effects: Seq<Effect>) -> bool {
    forall|j: int, k: int|
        0 <= j < effects.len() && 0 <= k < written_vars(effects[j]).len() ==> vs.contains(
            (#[trigger] written_vars(effects[j])[k])@,
        )
}

/// The indices of the variables of the unknown arguments.
fn map_unknown_args(vm: &mut VariableMapper, args: &Vec<MachineCallArgument<Variable>>) -> (r: Vec<usize>)
    ensures
        (final(vm).vars(), r@) == map_unknowns(old(vm).vars(), args@),
{
    let ghost vs0 = vm.vars();
    let mut out: Vec<usize> = Vec::new();
    let n = args.len();
    proof {
        assert(args@.take(0) =~= Seq::<MachineCallArgument<Variable>>::empty());
    }
    for i in 0..n
        invariant
            n == args@.len(),
            (vm.vars(), out@) == map_unknowns(vs0, args@.take(i as int)),
    {
        proof {
            assert(args@.take(i + 1).drop_last() =~= args@.take(i as int));
            assert(args@.take(i + 1).last() == args@[i as int]);
        }
        match &args[i] {
            MachineCallArgument::Unknown(v) => {
                let idx = vm.map_var(v);
                out.push(idx);
            },
            MachineCallArgument::Known(_) => {},
        }
    }
    proof {
        assert(args@.take(n as int) =~= args@);
    }
    out
}

/// The arguments with their variables replaced by indices.
fn map_call_args(vm: &mut VariableMapper, args: &Vec<MachineCallArgument<Variable>>) -> (r: Vec<
    MachineCallArgument<usize>,
>)
    ensures
        (final(vm).vars(), r@) == map_args(old(vm).vars(), args@),
{
    let ghost vs0 = vm.vars();
    let mut out: Vec<MachineCallArgument<usize>> = Vec::new();
    let n = args.len();
    proof {
        assert(args@.take(0) =~= Seq::<MachineCallArgument<Variable>>::empty());
    }
    for i in 0..n
        invariant
            n == args@.len(),
            (vm.vars(), out@) == map_args(vs0, args@.take(i as int)),
    {
        proof {
            assert(args@.take(i + 1).drop_last() =~= args@.take(i as int));
            assert(args@.take(i + 1).last() == args@[i as int]);
        }
        match &args[i] {
            MachineCallArgument::Unknown(_) => {
                out.push(MachineCallArgument::Unknown(0));
            },
            MachineCallArgument::Known(e) => {
                let e1 = vm.map_expr(e);
                out.push(MachineCallArgument::Known(e1));
            },
        }
    }
    proof {
        assert(args@.take(n as int) =~= args@);
    }
    out
}

/// The action of one effect.
fn compile_effect(vm: &mut VariableMapper, eff: &Effect) -> (r: InterpreterAction)
    requires
        !(*eff is RangeConstraint),
    ensures
        (final(vm).vars(), r@) == effect_spec(old(vm).vars(), *eff),
{
    match eff {
        Effect::Assignment(x, e) => {
            let idx = vm.map_var(x);
            let rpn = vm.map_expr_to_rpn(e);
            InterpreterAction::AssignExpression(idx, rpn)
        },
        Effect::Assertion(a) => {
            let l = vm.map_expr_to_rpn(&a.lhs);
            let r = vm.map_expr_to_rpn(&a.rhs);
            InterpreterAction::Assertion(l, r, a.expected_equal)
        },
        Effect::MachineCall(id, args) => {
            let results = map_unknown_args(vm, args);
            let margs = map_call_args(vm, args);
            InterpreterAction::MachineCall(results, *id, margs)
        },
        Effect::RangeConstraint(..) => {
            proof {
                assert(false);
            }
            InterpreterAction::ReadParam(0, 0)
        },
    }
}

/// Appends the actions that write back one determined variable.
fn write_var(vm: &VariableMapper, actions: &mut Vec<InterpreterAction>, x: &Variable)
    requires
        vm.vars().contains(x@),
    ensures
        actions_view(final(actions)@) == actions_view(old(actions)@) + write_var_spec(vm.vars(), *x),
{
    let ghost a0 = actions_view(actions@);
    let idx = match vm.get_var(x) {
        Some(i) => i,
        None => {
            proof {
                let k = choose|k: int| 0 <= k < vm.vars().len() && vm.vars()[k] == x@;
                assert(vm.vars()[k] == x@);
            }
            0
        },
    };
    match x {
        Variable::Cell(c) => {
            actions.push(InterpreterAction::WriteCell(idx, copy_cell(c)));
            actions.push(InterpreterAction::WriteKnown(copy_cell(c)));
        },
        Variable::Param(p) => {
            actions.push(InterpreterAction::WriteParam(idx, *p));
        },
        Variable::MachineCallReturnValue(_) => {},
    }
    proof {
        assert(actions_view(actions@) =~= a0 + write_var_spec(vm.vars(), *x));
    }
}

proof fn lemma_write_vars_push(vs: Seq<VariableV>, xs: Seq<Variable>, x: Variable)
    ensures
        write_vars_spec(vs, xs.push(x)) == write_vars_spec(vs, xs) + write_var_spec(vs, x),
{
    assert(xs.push(x).drop_last() =~= xs);
}

impl EffectsInterpreter {
    /// The compiled actions.
    pub closed spec fn actions(&self) -> Seq<ActionV> {
        actions_view(self.actions@)
    }

    /// The number of variables of the compiled code.
    pub closed spec fn spec_var_count(&self) -> nat {
        self.var_count as nat
    }

    /// The id of the first column of the machine.
    pub closed spec fn spec_first_column_id(&self) -> u64 {
        self.first_column_id
    }

    /// The number of columns of the machine.
    pub closed spec fn spec_column_count(&self) -> usize {
        self.column_count
    }

    /// Compiles the effects: the known inputs are read, the effects run in order, and
    /// the variables that they determine are written back.
    pub fn new(first_column_id: u64, column_count: usize, known_inputs: &[Variable], effects: &[Effect]) -> (r:
        Self)
        requires
            inputs_ok(known_inputs@),
            effects_ok(effects@),
        ensures
            r.actions() == compiled(known_inputs@, effects@).1,
            r.spec_var_count() == compiled(known_inputs@, effects@).0.len(),
            r.spec_first_column_id() == first_column_id,
            r.spec_column_count() == column_count,
    {
        let mut actions: Vec<InterpreterAction> = Vec::new();
        let mut var_mapper = VariableMapper::new();
        proof {
            assert(actions_view(actions@) =~= Seq::<ActionV>::empty());
        }
        Self::load_known_inputs(&mut var_mapper, &mut actions, known_inputs);
        let ghost v1 = var_mapper.vars();
        Self::process_effects(&mut var_mapper, &mut actions, effects);
        proof {
            lemma_process(v1, effects@);
        }
        Self::write_data(&var_mapper, &mut actions, effects);
        proof {
            let (w1, a1) = load_spec(Seq::empty(), known_inputs@);
            let (w2, a2) = process_spec(w1, effects@);
            assert(actions_view(actions@) =~= a1 + a2 + write_spec(w2, effects@));
        }
        EffectsInterpreter { first_column_id, column_count, var_count: var_mapper.var_count(), actions }
    }

    fn load_known_inputs(
        var_mapper: &mut VariableMapper,
        actions: &mut Vec<InterpreterAction>,
        known_inputs: &[Variable],
    )
        requires
            inputs_ok(known_inputs@),
        ensures
            final(var_mapper).vars() == load_spec(old(var_mapper).vars(), known_inputs@).0,
            actions_view(final(actions)@) == actions_view(old(actions)@) + load_spec(
                old(var_mapper).vars(),
                known_inputs@,
            ).1,
    {
        let ghost vs0 = var_mapper.vars();
        let ghost a0 = actions_view(actions@);
        let n = known_inputs.len();
        proof {
            assert(known_inputs@.take(0) =~= Seq::<Variable>::empty());
            assert(a0 + Seq::<ActionV>::empty() =~= a0);
        }
        for i in 0..n
            invariant
                n == known_inputs@.len(),
                inputs_ok(known_inputs@),
                var_mapper.vars() == load_spec(vs0, known_inputs@.take(i as int)).0,
                actions_view(actions@) == a0 + load_spec(vs0, known_inputs@.take(i as int)).1,
        {
            proof {
                assert(known_inputs@.take(i + 1).drop_last() =~= known_inputs@.take(i as int));
                assert(known_inputs@.take(i + 1).last() == known_inputs@[i as int]);
            }
            let ghost before = actions_view(actions@);
            let var = &known_inputs[i];
            let idx = var_mapper.map_var(var);
            match var {
                Variable::Cell(c) => {
                    actions.push(InterpreterAction::ReadCell(idx, copy_cell(c)));
                },
                Variable::Param(p) => {
                    actions.push(InterpreterAction::ReadParam(idx, *p));
                },
                Variable::MachineCallReturnValue(_) => {
                    proof {
                        assert(false);
                    }
                },
            }
            proof {
                assert(actions_view(actions@) =~= before.push(actions@.last()@));
                assert(actions_view(actions@) =~= a0 + load_spec(vs0, known_inputs@.take(i + 1)).1);
            }
        }
        proof {
            assert(known_inputs@.take(n as int) =~= known_inputs@);
        }
    }

    fn process_effects(var_mapper: &mut VariableMapper, actions: &mut Vec<InterpreterAction>, effects: &[Effect])
        requires
            effects_ok(effects@),
        ensures
            final(var_mapper).vars() == process_spec(old(var_mapper).vars(), effects@).0,
            actions_view(final(actions)@) == actions_view(old(actions)@) + process_spec(
                old(var_mapper).vars(),
                effects@,
            ).1,
    {
        let ghost vs0 = var_mapper.vars();
        let ghost a0 = actions_view(actions@);
        let n = effects.len();
        proof {
            assert(effects@.take(0) =~= Seq::<Effect>::empty());
            assert(a0 + Seq::<ActionV>::empty() =~= a0);
        }
        for i in 0..n
            invariant
                n == effects@.len(),
                effects_ok(effects@),
                var_mapper.vars() == process_spec(vs0, effects@.take(i as int)).0,
                actions_view(actions@) == a0 + process_spec(vs0, effects@.take(i as int)).1,
        {
            proof {
                assert(effects@.take(i + 1).drop_last() =~= effects@.take(i as int));
                assert(effects@.take(i + 1).last() == effects@[i as int]);
            }
            let ghost before = actions_view(actions@);
            let a = compile_effect(var_mapper, &effects[i]);
            actions.push(a);
            proof {
                assert(actions_view(actions@) =~= before.push(actions@.last()@));
                assert(actions_view(actions@) =~= a0 + process_spec(vs0, effects@.take(i + 1)).1);
            }
        }
        proof {
            assert(effects@.take(n as int) =~= effects@);
        }
    }

    fn write_data(var_mapper: &VariableMapper, actions: &mut Vec<InterpreterAction>, effects: &[Effect])
        requires
            written_have_indices(var_mapper.vars(), effects@),
        ensures
            actions_view(final(actions)@) == actions_view(old(actions)@) + write_spec(
                var_mapper.vars(),
                effects@,
            ),
    {
        let ghost vs = var_mapper.vars();
        let ghost a0 = actions_view(actions@);
        let n = effects.len();
        proof {
            assert(effects@.take(0) =~= Seq::<Effect>::empty());
            assert(a0 + Seq::<ActionV>::empty() =~= a0);
        }
        for i in 0..n
            invariant
                n == effects@.len(),
                vs == var_mapper.vars(),
                written_have_indices(vs, effects@),
                actions_view(actions@) == a0 + write_spec(vs, effects@.take(i as int)),
        {
            proof {
                assert(effects@.take(i + 1).drop_last() =~= effects@.take(i as int));
                assert(effects@.take(i + 1).last() == effects@[i as int]);
            }
            let ghost before = actions_view(actions@);
            match &effects[i] {
                Effect::Assignment(x, _) => {
                    proof {
                        assert(written_vars(effects@[i as int])[0] == *x);
                    }
                    write_var(var_mapper, actions, x);
                    proof {
                        let xs = written_vars(effects@[i as int]);
                        assert(xs.drop_last() =~= Seq::<Variable>::empty());
                        assert(write_vars_spec(vs, xs.drop_last()) == Seq::<ActionV>::empty());
                        assert(xs.last() == *x);
                        assert(Seq::<ActionV>::empty() + write_var_spec(vs, *x) =~= write_var_spec(vs, *x));
                        assert(write_vars_spec(vs, xs) == write_var_spec(vs, *x));
                    }
                },
                Effect::MachineCall(_, args) => {
                    let m = args.len();
                    proof {
                        assert(args@.take(0) =~= Seq::<MachineCallArgument<Variable>>::empty());
                        assert(before + Seq::<ActionV>::empty() =~= before);
                    }
                    for k in 0..m
                        invariant
                            m == args@.len(),
                            vs == var_mapper.vars(),
                            effects@[i as int] matches Effect::MachineCall(_, a) && a@ == args@,
                            written_have_indices(vs, effects@),
                            0 <= i < effects@.len(),
                            actions_view(actions@) == before + write_vars_spec(vs, unknown_vars(args@.take(k as int))),
                    {
                        proof {
                            assert(args@.take(k + 1).drop_last() =~= args@.take(k as int));
                            assert(args@.take(k + 1).last() == args@[k as int]);
                        }
                        match &args[k] {
                            MachineCallArgument::Unknown(x) => {
                                proof {
                                    lemma_unknown_member(args@, k as int);
                                    let w = written_vars(effects@[i as int]);
                                    let p = choose|p: int| 0 <= p < w.len() && w[p] == *x;
                                    assert(vs.contains(w[p]@));
                                    lemma_write_vars_push(vs, unknown_vars(args@.take(k as int)), *x);
                                }
                                let ghost mid = actions_view(actions@);
                                write_var(var_mapper, actions, x);
                                proof {
                                    assert(actions_view(actions@) =~= before + write_vars_spec(
                                        vs,
                                        unknown_vars(args@.take(k + 1)),
                                    ));
                                }
                            },
                            MachineCallArgument::Known(_) => {},
                        }
                    }
                    proof {
                        assert(args@.take(m as int) =~= args@);
                    }
                },
                _ => {
                    proof {
                        assert(write_vars_spec(vs, written_vars(effects@[i as int])) =~= Seq::<ActionV>::empty());
                        assert(actions_view(actions@) =~= before + Seq::<ActionV>::empty());
                    }
                },
            }
            proof {
                assert(actions_view(actions@) =~= a0 + write_spec(vs, effects@.take(i + 1)));
            }
        }
        proof {
            assert(effects@.take(n as int) =~= effects@);
        }
    }
}


// ---------------------------------------------------------------------------
// Running compiled actions
// ---------------------------------------------------------------------------
/// A parameter of the machine call being answered: an input with its value, or an
/// output with the value written to it so far.
#[derive(Clone, Copy, Debug, PartialEq, Eq, Structural)]
pub enum LookupCell {
    Input(GoldilocksField),
    Output(GoldilocksField),
}

/// What a run works on: the values of the variables, the trace data in row-major
/// layout, the bit set of known cells and the parameters of the call.
pub struct RunState {
    pub vars: Seq<Option<GoldilocksField>>,
    pub data: Seq<GoldilocksField>,
    pub known: Seq<u32>,
    pub params: Seq<LookupCell>,
}

/// The outcome of one action.
pub enum StepOutcome {
    Next(RunState),
    /// An assertion did not hold.
    AssertionFailed,
    /// The action cannot run on this state (the interpreter would panic).
    Panic,
}

/// Where a run stops.
pub enum RunEnd {
    /// All actions ran.
    Finished,
    /// The next action is a call to another machine.
    AtMachineCall,
    /// An assertion did not hold.
    AssertionFailed,
    /// An action cannot run on the state.
    Panic,
}

/// The value of an expression in reverse Polish form, run on an empty stack.
pub open spec fn eval_rpn(e: Seq<RPNExpressionElem>, vars: Seq<Option<GoldilocksField>>) -> Option<
    GoldilocksField,
> {
    match rpn_run(e, seq![], vars) {
        Some(st) => if st.len() > 0 {
            Some(st.last())
        } else {
            None
        },
        None => None,
    }
}

/// The variable can be assigned: it exists and has no value yet.
pub open spec fn unassigned(vars: Seq<Option<GoldilocksField>>, idx: usize) -> bool {
    idx < vars.len() && vars[idx as int] is None
}

/// The variable has a value.
pub open spec fn assigned(vars: Seq<Option<GoldilocksField>>, idx: usize) -> bool {
    idx < vars.len() && vars[idx as int] is Some
}

/// The cell can be addressed in the data.
pub open spec fn cell_in(fc: u64, cc: usize, row: u64, c: (Seq<char>, u64, i32), data_len: nat) -> bool {
    cell_ok(fc, cc, row, c.2, c.1) && cell_index(fc, cc, row, c.2, c.1) < data_len
}

/// The word of the known-bit set that holds the cell.
pub open spec fn known_word(fc: u64, cc: usize, row: u64, c: (Seq<char>, u64, i32)) -> int {
    row_of(row, c.2) * ((cc + 31) / 32) + (c.1 - fc) / 32
}

/// The bit of the cell in its word.
pub open spec fn known_bit(fc: u64, c: (Seq<char>, u64, i32)) -> u32 {
    ((c.1 - fc) % 32) as u32
}

/// One action run on a state, for a machine with first column `fc` and `cc`
/// columns, on row `row`.
pub open spec fn step_spec(fc: u64, cc: usize, row: u64, a: ActionV, s: RunState) -> StepOutcome {
    match a {
        ActionV::AssignExpression(idx, e) => match eval_rpn(e, s.vars) {
            Some(v) => if unassigned(s.vars, idx) {
                StepOutcome::Next(RunState { vars: s.vars.update(idx as int, Some(v)), ..s })
            } else {
                StepOutcome::Panic
            },
            None => StepOutcome::Panic,
        },
        ActionV::ReadCell(idx, c) => if cell_in(fc, cc, row, c, s.data.len()) && unassigned(s.vars, idx) {
            let v = s.data[cell_index(fc, cc, row, c.2, c.1)];
            StepOutcome::Next(RunState { vars: s.vars.update(idx as int, Some(v)), ..s })
        } else {
            StepOutcome::Panic
        },
        ActionV::ReadParam(idx, i) => if i < s.params.len() && s.params[i as int] is Input && unassigned(
            s.vars,
            idx,
        ) {
            let v = s.params[i as int]->Input_0;
            StepOutcome::Next(RunState { vars: s.vars.update(idx as int, Some(v)), ..s })
        } else {
            StepOutcome::Panic
        },
        ActionV::WriteCell(idx, c) => if cell_in(fc, cc, row, c, s.data.len()) && assigned(s.vars, idx) {
            let v = s.vars[idx as int]->Some_0;
            StepOutcome::Next(RunState { data: s.data.update(cell_index(fc, cc, row, c.2, c.1), v), ..s })
        } else {
            StepOutcome::Panic
        },
        ActionV::WriteParam(idx, i) => if i < s.params.len() && s.params[i as int] is Output && assigned(
            s.vars,
            idx,
        ) {
            let v = s.vars[idx as int]->Some_0;
            StepOutcome::Next(RunState { params: s.params.update(i as int, LookupCell::Output(v)), ..s })
        } else {
            StepOutcome::Panic
        },
        ActionV::WriteKnown(c) => {
            let w = known_word(fc, cc, row, c);
            if cell_ok(fc, cc, row, c.2, c.1) && w < s.known.len() {
                StepOutcome::Next(
                    RunState { known: s.known.update(w, s.known[w] | (1u32 << known_bit(fc, c))), ..s },
                )
            } else {
                StepOutcome::Panic
            }
        },
        ActionV::Assertion(l, r, expected_equal) => match (eval_rpn(l, s.vars), eval_rpn(r, s.vars)) {
            (Some(x), Some(y)) => if (x == y) == expected_equal {
                StepOutcome::Next(s)
            } else {
                StepOutcome::AssertionFailed
            },
            _ => StepOutcome::Panic,
        },
        ActionV::MachineCall(..) => StepOutcome::Panic,
    }
}

/// The actions run from position `pc` until the end, a machine call or a failure:
/// the position and the state where the run stops, and why it stops.
pub open spec fn run_spec(fc: u64, cc: usize, row: u64, acts: Seq<ActionV>, pc: int, s: RunState) -> (
    int,
    RunState,
    RunEnd,
)
    decreases acts.len() - pc,
{
    if pc < 0 || pc >= acts.len() {
        (pc, s, RunEnd::Finished)
    } else if acts[pc] is MachineCall {
        (pc, s, RunEnd::AtMachineCall)
    } else {
        match step_spec(fc, cc, row, acts[pc], s) {
            StepOutcome::Next(s1) => run_spec(fc, cc, row, acts, pc + 1, s1),
            StepOutcome::AssertionFailed => (pc, s, RunEnd::AssertionFailed),
            StepOutcome::Panic => (pc, s, RunEnd::Panic),
        }
    }
}

/// The cells handed to a machine call: the values of the known arguments as
/// inputs, and a zero output for each unknown one. `None` if a known argument
/// cannot be evaluated.
pub open spec fn call_cells(args: Seq<MachineCallArgument<usize>>, vars: Seq<Option<GoldilocksField>>) -> Option<
    Seq<LookupCell>,
>
    decreases args.len(),
{
    if args.len() == 0 {
        Some(seq![])
    } else {
        match call_cells(args.drop_last(), vars) {
            Some(cs) => match args.last() {
                MachineCallArgument::Unknown(_) => Some(cs.push(LookupCell::Output(GoldilocksField(0)))),
                MachineCallArgument::Known(e) => match eval_rpn(rpn_of(e), vars) {
                    Some(v) => Some(cs.push(LookupCell::Input(v))),
                    None => None,
                },
            },
            None => None,
        }
    }
}

/// The values of the output cells, in order.
pub open spec fn output_values(cells: Seq<LookupCell>) -> Seq<GoldilocksField>
    decreases cells.len(),
{
    if cells.len() == 0 {
        seq![]
    } else {
        let rest = output_values(cells.drop_last());
        match cells.last() {
            LookupCell::Output(v) => rest.push(v),
            LookupCell::Input(_) => rest,
        }
    }
}

/// The values assigned to the result variables of a machine call, one after the
/// other; `None` if a variable does not exist or already has a value.
pub open spec fn assign_outputs(
    vars: Seq<Option<GoldilocksField>>,
    results: Seq<usize>,
    outs: Seq<GoldilocksField>,
) -> Option<Seq<Option<GoldilocksField>>>
    decreases outs.len(),
{
    if outs.len() == 0 {
        Some(vars)
    } else {
        match assign_outputs(vars, results, outs.drop_last()) {
            Some(v1) => {
                let k = outs.len() - 1;
                if k < results.len() && unassigned(v1, results[k]) {
                    Some(v1.update(results[k] as int, Some(outs.last())))
                } else {
                    None
                }
            },
            None => None,
        }
    }
}

/// The trace values are field elements.
pub open spec fn data_wf(data: Seq<GoldilocksField>) -> bool {
    forall|i: int| 0 <= i < data.len() ==> (#[trigger] data[i]).wf()
}

/// The input parameters are field elements.
pub open spec fn params_wf(params: Seq<LookupCell>) -> bool {
    forall|i: int| 0 <= i < params.len() ==> ((#[trigger] params[i]) matches LookupCell::Input(v) ==> v.wf())
}

/// The state of a call of the interpreter: the next action and the values of the
/// variables.
pub struct CallState {
    pc: usize,
    vars: Vec<Option<GoldilocksField>>,
}

impl CallState {
    /// The position of the next action.
    pub closed spec fn pc(&self) -> int {
        self.pc as int
    }

    /// The values of the variables.
    pub closed spec fn vars(&self) -> Seq<Option<GoldilocksField>> {
        self.vars@
    }
}

/// The value of an expression in reverse Polish form.
fn eval_expression(e: &RPNExpression, vars: &Vec<Option<GoldilocksField>>) -> (r: GoldilocksField)
    requires
        vars_wf(vars@),
        eval_rpn(e.elems@, vars@) is Some,
    ensures
        eval_rpn(e.elems@, vars@) == Some(r),
        r.wf(),
{
    let mut stack: Vec<GoldilocksField> = Vec::new();
    proof {
        assert(stack@ =~= seq![]);
    }
    let r = e.evaluate(&mut stack, vars);
    r
}

proof fn lemma_vars_update(vars: Seq<Option<GoldilocksField>>, idx: int, v: GoldilocksField)
    requires
        0 <= idx < vars.len(),
        vars_wf(vars),
        v.wf(),
    ensures
        vars_wf(vars.update(idx, Some(v))),
{
    let w = vars.update(idx, Some(v));
    assert forall|i: int| 0 <= i < w.len() && (#[trigger] w[i]) is Some implies w[i]->Some_0.wf() by {
        if i != idx {
            assert(w[i] == vars[i]);
        }
    }
}

impl EffectsInterpreter {
    /// A call that starts at the first action with no variable assigned.
    pub fn begin_call(&self) -> (r: CallState)
        ensures
            r.pc() == 0,
            r.vars() == Seq::new(self.spec_var_count(), |i: int| None::<GoldilocksField>),
    {
        let mut vars: Vec<Option<GoldilocksField>> = Vec::new();
        for i in 0..self.var_count
            invariant
                vars@ == Seq::new(i as nat, |k: int| None::<GoldilocksField>),
        {
            vars.push(None);
            proof {
                assert(vars@ =~= Seq::new((i + 1) as nat, |k: int| None::<GoldilocksField>));
            }
        }
        CallState { pc: 0, vars }
    }

    /// Runs the actions from the call's position until all have run, the next one
    /// is a call to another machine, or an assertion fails. At a machine call it
    /// returns the id of the call and the cells to hand to it; the call goes on
    /// with `complete_machine_call` once the machine has filled in the outputs.
    /// A run on which an assertion fails is not admitted: the call would abort.
    pub fn run_until_machine_call(
        &self,
        state: &mut CallState,
        params: &mut Vec<LookupCell>,
        data: &mut Vec<GoldilocksField>,
        known: &mut Vec<u32>,
        row_offset: u64,
    ) -> (r: Option<(u64, Vec<LookupCell>)>)
        requires
            vars_wf(old(state).vars()),
            data_wf(old(data)@),
            params_wf(old(params)@),
            ({
                let (pc, s, end) = run_spec(
                    self.spec_first_column_id(),
                    self.spec_column_count(),
                    row_offset,
                    self.actions(),
                    old(state).pc(),
                    RunState { vars: old(state).vars(), data: old(data)@, known: old(known)@, params: old(params)@ },
                );
                &&& !(end is Panic)
                &&& !(end is AssertionFailed)
                &&& end is AtMachineCall ==> call_cells(self.actions()[pc]->MachineCall_2, s.vars) is Some
            }),
        ensures
            ({
                let (pc, s, end) = run_spec(
                    self.spec_first_column_id(),
                    self.spec_column_count(),
                    row_offset,
                    self.actions(),
                    old(state).pc(),
                    RunState { vars: old(state).vars(), data: old(data)@, known: old(known)@, params: old(params)@ },
                );
                &&& final(state).pc() == pc
                &&& final(state).vars() == s.vars
                &&& final(data)@ == s.data
                &&& final(known)@ == s.known
                &&& final(params)@ == s.params
                &&& match end {
                    RunEnd::Finished => r is None,
                    RunEnd::AtMachineCall => r matches Some((id, cells)) && id
                        == self.actions()[pc]->MachineCall_1 && call_cells(
                        self.actions()[pc]->MachineCall_2,
                        s.vars,
                    ) == Some(cells@),
                    _ => false,
                }
            }),
            vars_wf(final(state).vars()),
            data_wf(final(data)@),
            params_wf(final(params)@),
    {
        let ghost fc = self.first_column_id;
        let ghost cc = self.column_count;
        let ghost acts = self.actions();
        let ghost target = run_spec(
            fc,
            cc,
            row_offset,
            acts,
            state.pc as int,
            RunState { vars: state.vars@, data: data@, known: known@, params: params@ },
        );
        let n = self.actions.len();
        while state.pc < n
            invariant
                n == self.actions@.len(),
                acts == self.actions(),
                acts.len() == n,
                fc == self.first_column_id,
                cc == self.column_count,
                vars_wf(state.vars@),
                data_wf(data@),
                params_wf(params@),
                target == run_spec(
                    fc,
                    cc,
                    row_offset,
                    acts,
                    state.pc as int,
                    RunState { vars: state.vars@, data: data@, known: known@, params: params@ },
                ),
                !(target.2 is Panic),
                !(target.2 is AssertionFailed),
                target.2 is AtMachineCall ==> call_cells(acts[target.0]->MachineCall_2, target.1.vars) is Some,
                target == run_spec(
                    self.spec_first_column_id(),
                    self.spec_column_count(),
                    row_offset,
                    self.actions(),
                    old(state).pc(),
                    RunState { vars: old(state).vars(), data: old(data)@, known: old(known)@, params: old(params)@ },
                ),
            decreases n - state.pc,
        {
            let pc = state.pc;
            let ghost s = RunState { vars: state.vars@, data: data@, known: known@, params: params@ };
            proof {
                assert(acts[pc as int] == self.actions@[pc as int]@);
            }
            match &self.actions[pc] {
                InterpreterAction::MachineCall(_, id, args) => {
                    proof {
                        assert(acts[pc as int] is MachineCall);
                        assert(target == (pc as int, s, RunEnd::AtMachineCall));
                    }
                    let cells = self.call_arguments(args, &state.vars);
                    proof {
                        assert(*id == acts[pc as int]->MachineCall_1);
                        assert(call_cells(acts[pc as int]->MachineCall_2, s.vars) == Some(cells@));
                    }
                    return Some((*id, cells));
                },
                InterpreterAction::AssignExpression(idx, e) => {
                    let v = eval_expression(e, &state.vars);
                    state.vars.set(*idx, Some(v));
                    proof {
                        lemma_vars_update(s.vars, *idx as int, v);
                    }
                },
                InterpreterAction::ReadCell(idx, c) => {
                    let i = index(self.first_column_id, self.column_count, row_offset, c.row_offset, c.id);
                    let v = data[i];
                    state.vars.set(*idx, Some(v));
                    proof {
                        lemma_vars_update(s.vars, *idx as int, v);
                    }
                },
                InterpreterAction::ReadParam(idx, i) => {
                    let v = get_param(params, *i);
                    state.vars.set(*idx, Some(v));
                    proof {
                        lemma_vars_update(s.vars, *idx as int, v);
                    }
                },
                InterpreterAction::WriteCell(idx, c) => {
                    let v = state.vars[*idx].unwrap();
                    crate::witgen::set(self.first_column_id, self.column_count, data, row_offset, c.row_offset, c.id, v);
                    proof {
                        assert forall|k: int| 0 <= k < data@.len() implies (#[trigger] data@[k]).wf() by {
                            if k != cell_index(fc, cc, row_offset, c.row_offset, c.id) {
                                assert(data@[k] == s.data[k]);
                            }
                        }
                    }
                },
                InterpreterAction::WriteParam(idx, i) => {
                    let v = state.vars[*idx].unwrap();
                    set_param(params, *i, v);
                    proof {
                        assert forall|k: int| 0 <= k < params@.len() implies ((#[trigger] params@[k]) matches LookupCell::Input(x) ==> x.wf()) by {
                            if k != *i as int {
                                assert(params@[k] == s.params[k]);
                            }
                        }
                    }
                },
                InterpreterAction::WriteKnown(c) => {
                    set_known(self.first_column_id, self.column_count, known, row_offset, c.row_offset, c.id);
                },
                InterpreterAction::Assertion(l, r, expected_equal) => {
                    let x = eval_expression(l, &state.vars);
                    let y = eval_expression(r, &state.vars);
                    if (x == y) != *expected_equal {
                        proof {
                            assert(step_spec(fc, cc, row_offset, acts[pc as int], s) == StepOutcome::AssertionFailed);
                            assert(target == (pc as int, s, RunEnd::AssertionFailed));
                            assert(false);
                        }
                        return None;
                    }
                },
            }
            proof {
                let s1 = RunState { vars: state.vars@, data: data@, known: known@, params: params@ };
                assert(step_spec(fc, cc, row_offset, acts[pc as int], s) == StepOutcome::Next(s1));
            }
            state.pc = pc + 1;
        }
        None
    }

    /// The cells to hand to a machine call.
    fn call_arguments(&self, args: &Vec<MachineCallArgument<usize>>, vars: &Vec<Option<GoldilocksField>>) -> (r: Vec<
        LookupCell,
    >)
        requires
            vars_wf(vars@),
            call_cells(args@, vars@) is Some,
        ensures
            call_cells(args@, vars@) == Some(r@),
    {
        let mut cells: Vec<LookupCell> = Vec::new();
        let n = args.len();
        proof {
            assert(args@.take(0) =~= Seq::<MachineCallArgument<usize>>::empty());
            lemma_call_cells_prefix(args@, vars@);
        }
        for i in 0..n
            invariant
                n == args@.len(),
                vars_wf(vars@),
                call_cells(args@, vars@) is Some,
                forall|k: int| 0 <= k <= n ==> call_cells(#[trigger] args@.take(k), vars@) is Some,
                call_cells(args@.take(i as int), vars@) == Some(cells@),
        {
            proof {
                assert(args@.take(i + 1).drop_last() =~= args@.take(i as int));
                assert(args@.take(i + 1).last() == args@[i as int]);
                assert(call_cells(args@.take(i + 1), vars@) is Some);
            }
            match &args[i] {
                MachineCallArgument::Unknown(_) => {
                    cells.push(LookupCell::Output(GoldilocksField(0)));
                },
                MachineCallArgument::Known(e) => {
                    let rpn = RPNExpression::from(e);
                    let v = eval_expression(&rpn, vars);
                    cells.push(LookupCell::Input(v));
                },
            }
        }
        proof {
            assert(args@.take(n as int) =~= args@);
        }
        cells
    }

    /// Writes the values of the output cells of the machine call at the call's
    /// position to the call's result variables, in order, and moves past the call.
    pub fn complete_machine_call(&self, state: &mut CallState, cells: &Vec<LookupCell>)
        requires
            0 <= old(state).pc() < self.actions().len(),
            self.actions()[old(state).pc()] is MachineCall,
            forall|i: int| 0 <= i < output_values(cells@).len() ==> (#[trigger] output_values(cells@)[i]).wf(),
            vars_wf(old(state).vars()),
            assign_outputs(old(state).vars(), self.actions()[old(state).pc()]->MachineCall_0, output_values(cells@))
                is Some,
        ensures
            final(state).pc() == old(state).pc() + 1,
            Some(final(state).vars()) == assign_outputs(
                old(state).vars(),
                self.actions()[old(state).pc()]->MachineCall_0,
                output_values(cells@),
            ),
            vars_wf(final(state).vars()),
    {
        let pc = state.pc;
        let len = self.actions.len();
        proof {
            assert(self.actions()[pc as int] == self.actions@[pc as int]@);
            assert(pc < len);
        }
        let results = match &self.actions[pc] {
            InterpreterAction::MachineCall(results, _, _) => results,
            _ => {
                proof {
                    assert(false);
                }
                return;
            },
        };
        let outs = collect_outputs(cells);
        let ghost res = results@;
        let ghost vars0 = state.vars@;
        let m = outs.len();
        proof {
            lemma_assign_prefix(vars0, res, outs@);
            assert(outs@.take(0) =~= Seq::<GoldilocksField>::empty());
        }
        for j in 0..m
            invariant
                m == outs@.len(),
                res == results@,
                outs@ == output_values(cells@),
                forall|t: int| 0 <= t < outs@.len() ==> (#[trigger] outs@[t]).wf(),
                forall|t: int| 0 <= t <= outs@.len() ==> assign_outputs(vars0, res, #[trigger] outs@.take(t)) is Some,
                assign_outputs(vars0, res, outs@.take(j as int)) == Some(state.vars@),
                vars_wf(state.vars@),
        {
            proof {
                assert(outs@.take(j + 1).drop_last() =~= outs@.take(j as int));
                assert(outs@.take(j + 1).last() == outs@[j as int]);
                assert(assign_outputs(vars0, res, outs@.take(j + 1)) is Some);
            }
            let ghost before = state.vars@;
            let target = results[j];
            let v = outs[j];
            state.vars.set(target, Some(v));
            proof {
                lemma_vars_update(before, target as int, v);
            }
        }
        proof {
            assert(outs@.take(m as int) =~= outs@);
        }
        state.pc = pc + 1;
    }
}

proof fn lemma_call_cells_prefix(args: Seq<MachineCallArgument<usize>>, vars: Seq<Option<GoldilocksField>>)
    requires
        call_cells(args, vars) is Some,
    ensures
        forall|j: int| 0 <= j <= args.len() ==> call_cells(#[trigger] args.take(j), vars) is Some,
    decreases args.len(),
{
    assert(args.take(args.len() as int) =~= args);
    if args.len() > 0 {
        let pre = args.drop_last();
        lemma_call_cells_prefix(pre, vars);
        assert forall|j: int| 0 <= j <= args.len() implies call_cells(#[trigger] args.take(j), vars) is Some by {
            if j < args.len() {
                assert(pre.take(j) =~= args.take(j));
            }
        }
    }
}

proof fn lemma_assign_prefix(vars: Seq<Option<GoldilocksField>>, results: Seq<usize>, outs: Seq<GoldilocksField>)
    requires
        assign_outputs(vars, results, outs) is Some,
    ensures
        forall|j: int| 0 <= j <= outs.len() ==> assign_outputs(vars, results, #[trigger] outs.take(j)) is Some,
    decreases outs.len(),
{
    assert(outs.take(outs.len() as int) =~= outs);
    if outs.len() > 0 {
        let pre = outs.drop_last();
        lemma_assign_prefix(vars, results, pre);
        assert forall|j: int| 0 <= j <= outs.len() implies assign_outputs(vars, results, #[trigger] outs.take(j)) is Some by {
            if j < outs.len() {
                assert(pre.take(j) =~= outs.take(j));
            }
        }
    }
}

/// The values of the output cells, in order.
fn collect_outputs(cells: &Vec<LookupCell>) -> (r: Vec<GoldilocksField>)
    ensures
        r@ == output_values(cells@),
{
    let mut out: Vec<GoldilocksField> = Vec::new();
    let n = cells.len();
    proof {
        assert(cells@.take(0) =~= Seq::<LookupCell>::empty());
    }
    for i in 0..n
        invariant
            n == cells@.len(),
            out@ == output_values(cells@.take(i as int)),
    {
        proof {
            assert(cells@.take(i + 1).drop_last() =~= cells@.take(i as int));
            assert(cells@.take(i + 1).last() == cells@[i as int]);
        }
        match cells[i] {
            LookupCell::Output(v) => out.push(v),
            LookupCell::Input(_) => {},
        }
    }
    proof {
        assert(cells@.take(n as int) =~= cells@);
    }
    out
}

/// The value of an input parameter.
fn get_param(params: &Vec<LookupCell>, i: usize) -> (r: GoldilocksField)
    requires
        i < params@.len(),
        params@[i as int] is Input,
    ensures
        r == params@[i as int]->Input_0,
{
    match params[i] {
        LookupCell::Input(v) => v,
        LookupCell::Output(_) => {
            proof {
                assert(false);
            }
            GoldilocksField(0)
        },
    }
}

/// Writes the value to an output parameter.
fn set_param(params: &mut Vec<LookupCell>, i: usize, value: GoldilocksField)
    requires
        i < old(params)@.len(),
        old(params)@[i as int] is Output,
    ensures
        final(params)@ == old(params)@.update(i as int, LookupCell::Output(value)),
{
    params.set(i, LookupCell::Output(value));
}


/// Once a variable has an index it keeps it: mapping it again returns the same
/// index and adds nothing, the indices stay dense, and no variable gets two.
pub proof fn law_variable_index_is_stable(vs: Seq<VariableV>, v: VariableV)
    requires
        distinct(vs),
    ensures
        ({
            let (w, i) = mapped(vs, v);
            &&& 0 <= i < w.len()
            &&& w[i] == v
            &&& distinct(w)
            &&& mapped(w, v) == (w, i)
        }),
{
    let (w, i) = mapped(vs, v);
    if position(vs, v) is None {
        assert(w[vs.len() as int] == v);
        assert forall|a: int, b: int| 0 <= a < w.len() && 0 <= b < w.len() && a != b implies w[a] != w[b] by {
            if a < vs.len() && b < vs.len() {
                assert(w[a] == vs[a] && w[b] == vs[b]);
            } else if a < vs.len() {
                assert(w[a] == vs[a]);
            } else if b < vs.len() {
                assert(w[b] == vs[b]);
            }
        }
    }
    assert(w[i] == v);
    let j = choose|j: int| 0 <= j < w.len() && w[j] == v;
    assert(w[j] == v);
    assert(j == i);
}

} // verus!
