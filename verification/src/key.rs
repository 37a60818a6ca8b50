//! Keys of formal sums: values that can be compared and duplicated.

use vstd::prelude::*;

verus! {

/// A value that can label a term of a formal sum.
///
/// Two keys are the same term exactly when their views are equal.
pub trait Key: View + Sized {
    /// Decides whether two keys label the same term.
    fn key_eq(&self, other: &Self) -> (b: bool)
        ensures
            b == (self@ == other@),
    ;

    /// Makes another key for the same term.
    fn key_clone(&self) -> (c: Self)
        ensures
            c@ == self@,
    ;
}

impl Key for String {
    fn key_eq(&self, other: &String) -> (b: bool) {
        *self == *other
    }

    fn key_clone(&self) -> (c: String) {
        self.clone()
    }
}

impl Key for usize {
    fn key_eq(&self, other: &usize) -> (b: bool) {
        *self == *other
    }

    fn key_clone(&self) -> (c: usize) {
        *self
    }
}

impl Key for u64 {
    fn key_eq(&self, other: &u64) -> (b: bool) {
        *self == *other
    }

    fn key_clone(&self) -> (c: u64) {
        *self
    }
}

} // verus!
