//! Planning the extraction of a ZIP archive into the current directory.
//!
//! The library decides, entry by entry, which lines are reported and which
//! filesystem steps are taken; carrying the steps out is left to the caller.

pub mod text;
pub mod path;
pub mod entry;
pub mod plan;
pub mod archive;
pub mod cli;
pub mod tree;
pub mod order;
