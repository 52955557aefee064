//! A verified type unifier for a Hindley-Milner style type checker.
//!
//! The crate is organised around a shared mutable union-find store of type
//! descriptors ([`subs`]), an algebraic content model ([`types`]), small
//! verified keyed collections ([`collections`]), and the unifier itself
//! ([`unify`]), which decides whether two type variables can be made
//! structurally equal and merges them in the store when they can.
//! [`vec_result`] holds a small slice helper with a proper error type.

pub mod collections;
pub mod subs;
pub mod types;
pub mod unify;
pub mod vec_result;
