//! Static detection of three concurrency and resource-lifecycle hazards in a
//! function body: a panic while a lock is held, a spawned task that is never
//! joined, and an optional value that is unwrapped unchecked.
//!
//! A body arrives as a [`syntax::SyntaxNode`] tree. It is lowered to a
//! control-flow graph ([`cfg`], [`lower`]), the resources that may still be
//! held are computed for every block ([`scope`]), the rules inspect the
//! result ([`rules`]), and the findings are merged into one verdict
//! ([`aggregate`]). [`engine`] runs these steps one after the other.
//!
//! What the graphs of the builder look like is proved in [`shape`]; what
//! holds of every analysis is proved in [`laws`], [`dead_code`] and
//! [`growth`].
use vstd::prelude::*;

pub mod resource;
pub mod syntax;
pub mod cfg;
pub mod lower;
pub mod shape;
pub mod scope;
pub mod rules;
pub mod aggregate;
pub mod engine;
pub mod samples;
pub mod laws;
pub mod dead_code;
pub mod growth;

verus! {

} // verus!
