//! Splitting compound words into their constituents, given a predicate that tells
//! valid single words apart.

pub mod casing;
pub mod decompose;
pub mod hyphen;
pub mod laws;
pub mod options;
pub mod policy;
pub mod predicate;
pub mod search;

pub use decompose::{decompound, DecompositionError, DecompositionResult};
pub use options::DecompositionOptions;
