//! Search over source code: one document for each file of a repository.

pub mod index;
pub mod parse;
pub mod walk;
