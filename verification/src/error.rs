use vstd::prelude::*;

verus! {

/// Why a notation string could not be rolled or enumerated.
#[derive(Clone, Copy, Debug, PartialEq, Eq, Structural)]
pub enum DiceError {
    /// The arithmetic that remains once every dice group has been replaced
    /// by a number is not a well-formed expression.
    MalformedExpression,
    /// A dice group asks for zero dice, or for dice with zero faces.
    DegenerateDiceGroup,
    /// A literal, a total or a count of combinations does not fit the
    /// integer type that has to hold it.
    ComplexityOverflow,
}

impl DiceError {
    /// A short description of the error for display.
    pub fn message(&self) -> (text: &'static str)
        ensures
            text@ == match *self {
                DiceError::MalformedExpression => "malformed expression"@,
                DiceError::DegenerateDiceGroup => "dice group with zero dice or zero faces"@,
                DiceError::ComplexityOverflow => "number out of range"@,
            },
    {
        match self {
            DiceError::MalformedExpression => "malformed expression",
            DiceError::DegenerateDiceGroup => "dice group with zero dice or zero faces",
            DiceError::ComplexityOverflow => "number out of range",
        }
    }
}

} // verus!
