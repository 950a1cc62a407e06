//! System-level errors.
//!
//! Business-rule violations (duplicate ids, bad amounts, insufficient
//! funds, and so on) are not errors: the engine resolves them by
//! rejecting the single offending transaction.  The variants here are
//! for failures of the surroundings — an unreadable input source, a
//! record-encoding failure, or a durability backend that could not
//! append — which abort the operation that hit them.

use vstd::prelude::*;

verus! {

/// Errors that can occur around transaction processing.
#[derive(Debug)]
pub enum EngineError {
    /// An input source or durability backend failed; the payload is a
    /// human-readable description.
    Io(String),
    /// The record encoding layer failed; the payload is a
    /// human-readable description.
    Csv(String),
}

} // verus!
