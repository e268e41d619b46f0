//! Validation and integration pipeline for a content-addressed operation log.
//!
//! Operations enter a pending scope, pass structural checks and application
//! callbacks, and are integrated once every causal prerequisite is integrated.
use vstd::prelude::*;

pub mod cascade;
pub mod store;
pub mod trigger;
pub mod validate;
pub mod workflow;

verus! {

/// The hash that identifies an operation record, or any entity it refers to.
pub type AnyDhtHash = u64;

} // verus!
