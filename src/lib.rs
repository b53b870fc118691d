//! A streaming JSON-Schema validator. A walker reports a depth-first walk of a JSON
//! instance (`push_property`, `push_item`, `pop_*`); the `Validator` evaluates every
//! applicable schema in lock-step over a stack of scopes, and reports a verdict with
//! its errors and annotations.
//!
//! `scope` models one evaluation and how it finishes and merges into its parent,
//! `validator` the stack of scopes and the walker events, `laws` the properties proved
//! of them, and `schema`, `index`, `number`, `checks` the compiled schemas and the
//! leaf predicates they hold.

use vstd::prelude::*;

pub mod checks;
pub mod collections;
pub mod evolution;
pub mod index;
pub mod laws;
pub mod location;
pub mod number;
pub mod outcome;
pub mod pattern;
pub mod pointer;
pub mod schema;
pub mod scope;
pub mod uri;
pub mod validator;

verus! {

} // verus!
