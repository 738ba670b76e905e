//! Finds directories whose local shape (own name, direct files, direct
//! subdirectory names) satisfies structural glob patterns.

pub mod cache;
pub mod error;
pub mod file_pattern;
pub mod glob;
pub mod grouping;
pub mod pattern;
pub mod scan;
pub mod walk;
