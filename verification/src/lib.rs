//! Diagram algebra: morphisms of a diagrammatic monoidal category as formal
//! linear combinations of perfect matchings.
//!
//! - `coefficient`, `key`, `linear_combination`: the free module over any
//!   set of keys, with coefficients in a commutative ring.
//! - `pair`, `matching`, `planarity`: perfect matchings of labelled
//!   endpoints in canonical form, and the test for diagrams without crossings.
//! - `graph`, `seam`, `glue`: the composite of two diagrams, read off the
//!   graph that glues their matchings along the shared interface.
//! - `temperley_lieb`: the morphisms themselves, with identity, composition,
//!   monoidal product and adjoint.
//! - `category`, `monoidal`, `symmetric_monoidal`: what a morphism of a
//!   (symmetric) monoidal category offers, and morphisms built in layers.
//! - `permutation`, `utils`: permutations and small helpers.
//! - `contraction`, `associativity`, `sums`, `laws`: the laws of the algebra
//!   and what their proofs need.

pub mod associativity;
pub mod category;
pub mod coefficient;
pub mod contraction;
pub mod error;
pub mod glue;
pub mod graph;
pub mod key;
pub mod linear_combination;
pub mod matching;
pub mod monoidal;
pub mod pair;
pub mod permutation;
pub mod planarity;
pub mod seam;
pub mod sums;
pub mod symmetric_monoidal;
pub mod temperley_lieb;
pub mod utils;
pub mod laws;
