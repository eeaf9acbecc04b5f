use vstd::prelude::*;

verus! {

/// Which input vector has the wrong length.
#[derive(Clone, Copy, Debug, PartialEq, Eq, Structural)]
pub enum Operand {
    /// The right-hand side `b`, whose length must be the number of constraints.
    Rhs,
    /// The objective `c`, whose length must be the number of variables.
    Objective,
}

/// Why a linear program could not be solved.
#[derive(Clone, Copy, Debug, PartialEq, Eq, Structural)]
pub enum SimplexError {
    /// No constraint rows were given.
    EmptyConstraints,
    /// The first constraint row has no columns.
    EmptyVariables,
    /// `b` or `c` does not match the shape of `A`.
    DimensionMismatch { operand: Operand, expected: usize, found: usize },
    /// Some constraint row is not as long as the first one.
    RaggedConstraints,
    /// Some right-hand side entry is negative.
    NegativeRHS,
    /// The objective can be increased without bound.
    Unbounded,
    /// An input equals `i64::MIN`, or a pivot produced an entry outside the
    /// range `-i64::MAX ..= i64::MAX`.
    Overflow,
    /// The pivot budget ran out before the method stopped.
    IterationLimit,
}

} // verus!
