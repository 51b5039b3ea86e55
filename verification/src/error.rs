//! Error taxonomy of the storage layer.

use vstd::prelude::*;

verus! {

/// Typed failure of a store operation.
///
/// `NotFound` reports an absent entity, `BadRequest` caller-supplied data
/// that violates a precondition, `Conflict` a violated uniqueness or
/// business invariant, `Database` a broken reference or unavailable store,
/// and `Internal` any other failure.
#[derive(Debug, Clone)]
pub enum AppError {
    Database(String),
    Internal(String),
    NotFound(String),
    BadRequest(String),
    Conflict(String),
}

} // verus!
