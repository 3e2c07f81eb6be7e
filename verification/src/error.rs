use vstd::prelude::*;

verus! {

/// The ways in which an operation of this library can refuse its input.
///
/// Every operation checks its input before it changes anything, so a caller
/// that receives one of these still holds its values as they were.
#[derive(Clone, Copy, Debug, PartialEq, Eq, Structural)]
pub enum AlgebraError {
    /// A polynomial division whose divisor does not lead with `1` or `-1`.
    NonMonicDivisor,
    /// A field division whose divisor is congruent to zero.
    DivideByZero,
    /// A transform length that is not a power of two, or does not divide
    /// the order of the field's multiplicative group.
    InvalidTransformLength,
}

impl AlgebraError {
    /// A short description of the error, for messages.
    pub fn message(&self) -> (text: &'static str)
        ensures
            text@ == (match *self {
                AlgebraError::NonMonicDivisor => "divisor is not monic"@,
                AlgebraError::DivideByZero => "division by the zero element"@,
                AlgebraError::InvalidTransformLength => "invalid transform length"@,
            }),
    {
        match self {
            AlgebraError::NonMonicDivisor => "divisor is not monic",
            AlgebraError::DivideByZero => "division by the zero element",
            AlgebraError::InvalidTransformLength => "invalid transform length",
        }
    }
}

} // verus!
