//! Search over past conversation transcripts and indexed source code.

pub mod cli;
pub mod clock;
pub mod code;
pub mod daemon;
pub mod index;
pub mod install;
pub mod json;
pub mod lists;
pub mod mcp;
pub mod parse;
pub mod paths;
pub mod snippet;
pub mod store;
pub mod text;
pub mod wording;
