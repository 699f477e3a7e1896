//! Results of evaluating or solving constraints during witness generation.
use vstd::prelude::*;

use crate::field::GoldilocksField;
use crate::range::RangeConstraint;

verus! {

/// What was learnt about a variable.
#[derive(Clone, Debug, PartialEq)]
pub enum Constraint {
    /// The variable has exactly this value.
    Assignment(GoldilocksField),
    /// The variable's value satisfies this range constraint.
    RangeConstraint(RangeConstraint),
}

/// Why an evaluation could not determine everything.
#[derive(Clone, Debug, PartialEq)]
pub enum IncompleteCause {
    /// The equation has more than one unknown.
    MultipleLinearSolutions,
    /// No new range constraint could be transferred.
    NoProgressTransferring,
    /// Only range constraints, no concrete values, were derived.
    NotConcrete,
    /// These variables have no bit constraint.
    BitUnconstrained(Vec<u64>),
    /// The bit constraints of the variables overlap.
    OverlappingBitConstraints,
}

/// Whether an evaluation determined everything.
#[derive(Clone, Debug, PartialEq)]
pub enum EvalStatus {
    Complete,
    Incomplete(IncompleteCause),
}

/// The constraints derived by an evaluation, together with its status.
#[derive(Clone, Debug, PartialEq)]
pub struct EvalValue {
    pub constraints: Vec<(u64, Constraint)>,
    pub status: EvalStatus,
}

/// Errors of an evaluation.
#[derive(Clone, Debug, PartialEq)]
pub enum EvalError {
    /// The constraint cannot be satisfied; the text is the offending expression.
    ConstraintUnsatisfiable(String),
    /// The range constraints of the variables contradict the equation.
    ConflictingRangeConstraints,
}

impl EvalValue {
    /// A complete result with the given constraints.
    pub fn complete(constraints: Vec<(u64, Constraint)>) -> (r: Self)
        ensures
            r.constraints@ == constraints@,
            r.status == EvalStatus::Complete,
    {
        EvalValue { constraints, status: EvalStatus::Complete }
    }

    /// An incomplete result without constraints.
    pub fn incomplete(cause: IncompleteCause) -> (r: Self)
        ensures
            r.constraints@.len() == 0,
            r.status == EvalStatus::Incomplete(cause),
    {
        EvalValue { constraints: Vec::new(), status: EvalStatus::Incomplete(cause) }
    }

    /// An incomplete result with the given constraints.
    pub fn incomplete_with_constraints(
        constraints: Vec<(u64, Constraint)>,
        cause: IncompleteCause,
    ) -> (r: Self)
        ensures
            r.constraints@ == constraints@,
            r.status == EvalStatus::Incomplete(cause),
    {
        EvalValue { constraints, status: EvalStatus::Incomplete(cause) }
    }

    /// Whether the evaluation determined everything.
    pub fn is_complete(&self) -> (r: bool)
        ensures
            r == (self.status is Complete),
    {
        match self.status {
            EvalStatus::Complete => true,
            EvalStatus::Incomplete(_) => false,
        }
    }

    /// Whether no constraint was derived.
    pub fn is_empty(&self) -> (r: bool)
        ensures
            r == (self.constraints@.len() == 0),
    {
        self.constraints.len() == 0
    }
}

} // verus!
