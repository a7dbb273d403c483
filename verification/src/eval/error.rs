//! The unified failure type of evaluation.

use vstd::prelude::*;
use crate::eval::scope::ScopeError;
use crate::reader::{expr_view, Expression, ExprV};

verus! {

/// A failure of evaluation.
#[derive(Debug, PartialEq)]
pub enum EvalError {
    /// The head of a list evaluated to something that cannot be called;
    /// carries that value.
    NotAFunction(Expression),
    /// An empty list is not a valid function call.
    EmptyList,
    /// A name-resolution failure, passed through.
    ScopeError(ScopeError),
    /// A user-defined function was called with the wrong number of
    /// arguments.
    ArityMismatch { expected: usize, actual: usize },
    /// A native function was handed operands of the wrong shape.
    TypeMismatch,
    /// Evaluation was cut off at the recursion limit.
    RecursionLimit,
}

/// The mathematical shape of an [`EvalError`].
pub enum EvalErrV {
    NotAFunction(ExprV),
    EmptyList,
    ScopeError(Seq<char>),
    ArityMismatch { expected: int, actual: int },
    TypeMismatch,
    RecursionLimit,
}

impl View for EvalError {
    type V = EvalErrV;

    open spec fn view(&self) -> EvalErrV {
        match self {
            EvalError::NotAFunction(e) => EvalErrV::NotAFunction(expr_view(*e)),
            EvalError::EmptyList => EvalErrV::EmptyList,
            EvalError::ScopeError(ScopeError::IdentifierNotFound(m)) => EvalErrV::ScopeError(m@),
            EvalError::ArityMismatch { expected, actual } => EvalErrV::ArityMismatch {
                expected: *expected as int,
                actual: *actual as int,
            },
            EvalError::TypeMismatch => EvalErrV::TypeMismatch,
            EvalError::RecursionLimit => EvalErrV::RecursionLimit,
        }
    }
}

} // verus!
