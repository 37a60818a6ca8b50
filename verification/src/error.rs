//! The ways in which an operation of this library can fail.

use vstd::prelude::*;

verus! {

/// Why an operation did not produce a value.
#[derive(Debug, Clone, Copy, PartialEq, Eq, Structural)]
pub enum DiagramError {
    /// A list of pairs does not cover `0..2n` exactly once.
    MalformedMatching,
    /// A key transformation that had to be injective sent two keys to one.
    InjectivityViolation,
    /// The boundary sizes of two operands do not fit together.
    CompositionArityMismatch,
    /// A layer of a layered morphism holds no box.
    EmptyLayer,
    /// No permutation takes one list to the other.
    NoPermutation,
}

impl DiagramError {
    /// The message of the error, as mathematics.
    pub open spec fn message_spec(self) -> Seq<char> {
        match self {
            DiagramError::MalformedMatching => "the pairs do not cover the indices 0..2n exactly once"@,
            DiagramError::InjectivityViolation => "the function called injection should have been injective"@,
            DiagramError::CompositionArityMismatch => "mismatch in the common interface of the two operands"@,
            DiagramError::EmptyLayer => "an empty layer in a generic monoidal morphism"@,
            DiagramError::NoPermutation => "no permutation can take side 1 to side 2"@,
        }
    }

    /// What went wrong, in words.
    pub fn message(&self) -> (r: String)
        ensures
            r@ == self.message_spec(),
    {
        match self {
            DiagramError::MalformedMatching => "the pairs do not cover the indices 0..2n exactly once".to_owned(),
            DiagramError::InjectivityViolation => "the function called injection should have been injective".to_owned(),
            DiagramError::CompositionArityMismatch => "mismatch in the common interface of the two operands".to_owned(),
            DiagramError::EmptyLayer => "an empty layer in a generic monoidal morphism".to_owned(),
            DiagramError::NoPermutation => "no permutation can take side 1 to side 2".to_owned(),
        }
    }
}

} // verus!
