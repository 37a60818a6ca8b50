//! Morphisms of a symmetric monoidal category: the strands of one side can
//! be permuted. A permutation is the list of its images.

use vstd::prelude::*;
use crate::monoidal::{MonoidalMorphism, MonoidalMutatingMorphism};

verus! {

/// Morphisms between lists of labels whose strands can be permuted.
pub trait SymmetricMonoidalMorphism<T>: MonoidalMorphism<Vec<T>> {
    /// Permutes the strands of the codomain, or of the domain.
    fn permute_side(&mut self, p: &Vec<usize>, of_codomain: bool);

    /// The morphism that permutes strands with the labels `types`.
    fn from_permutation(p: Vec<usize>, types: &[T], types_as_on_domain: bool) -> Self;
}

/// Morphisms between objects of one kind whose strands can be permuted.
pub trait SymmetricMonoidalDiscreteMorphism<T>: MonoidalMorphism<T> {
    /// Permutes the strands of the codomain, or of the domain.
    fn permute_side(&mut self, p: &Vec<usize>, of_codomain: bool);

    /// The morphism that permutes the strands of the object `types`.
    fn from_permutation(p: Vec<usize>, types: T, types_as_on_domain: bool) -> Self;
}

/// Morphisms between lists of labels that compose in place and whose strands
/// can be permuted.
pub trait SymmetricMonoidalMutatingMorphism<T>: MonoidalMutatingMorphism<Vec<T>> {
    /// Permutes the strands of the codomain, or of the domain.
    fn permute_side(&mut self, p: &Vec<usize>, of_codomain: bool);

    /// The morphism that permutes strands with the labels `types`.
    fn from_permutation(p: Vec<usize>, types: &[T], types_as_on_domain: bool) -> Self;
}

} // verus!
