//! Verified core of a recipe manager: the aggregation and data-export
//! pipeline.
//!
//! The library collapses a denormalized join-row stream into nested
//! `FullRecipe` documents, round-trips those documents through a textual
//! interchange format, and persists imported documents with
//! storage-assigned identifiers.  Every executable function carries a
//! contract checked by Verus.

pub mod aggregate;
pub mod codec;
pub mod json;
pub mod model;
pub mod store;
pub mod text;
pub mod themes;

use vstd::prelude::*;

verus! {

/// A failure surfaced by the aggregation and bulk-write pipeline.
#[derive(Debug)]
pub enum Error {
    /// A filtered aggregate request referenced a nonexistent recipe.
    NotFound,
    /// The storage layer could not complete a statement.
    Storage,
}

} // verus!
