//! What a morphism of a category offers: identities and composition.

use vstd::prelude::*;
use crate::error::DiagramError;

verus! {

/// Morphisms that have an identity on every object.
pub trait HasIdentity<T>: Sized {
    /// The objects on which this implementation can build the identity.
    spec fn identity_req(on_this: &T) -> bool;

    /// The identity morphism on `on_this`.
    fn identity(on_this: &T) -> (r: Self)
        requires
            Self::identity_req(on_this),
    ;
}

/// Morphisms that compose into a new morphism.
pub trait Composable<T>: Sized {
    /// The operands whose composite this implementation can hold.
    spec fn compose_req(&self, other: &Self) -> bool;

    /// Whether the codomain of `self` is the domain of `other`.
    fn composable(&self, other: &Self) -> (r: Result<(), DiagramError>);

    /// The composite, `self` first.
    fn compose(&self, other: &Self) -> (r: Result<Self, DiagramError>)
        requires
            self.compose_req(other),
    ;

    /// The object that the morphism starts from.
    fn domain(&self) -> (r: T);

    /// The object that the morphism leads to.
    fn codomain(&self) -> (r: T);
}

/// Morphisms that take the composite in place of the first operand.
pub trait ComposableMutating<T>: Sized {
    /// The operands whose composite this implementation can hold.
    spec fn compose_req(&self, other: &Self) -> bool;

    /// Whether the codomain of `self` is the domain of `other`.
    fn composable(&self, other: &Self) -> (r: Result<(), DiagramError>);

    /// Makes `self` the composite of `self` and `other`, `self` first.
    fn compose(&mut self, other: Self) -> (r: Result<(), DiagramError>)
        requires
            old(self).compose_req(&other),
    ;

    /// The object that the morphism starts from.
    fn domain(&self) -> (r: T);

    /// The object that the morphism leads to.
    fn codomain(&self) -> (r: T);
}

} // verus!
