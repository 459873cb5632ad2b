//! Parallel file search: recursive discovery of files by name substring,
//! optional content scanning partitioned across a fixed set of workers,
//! and rendering of the aggregated results.
//!
//! The verified core covers the name filter, the substring scanner with
//! line/column reporting, the chunk partition that assigns candidate files
//! to workers, configuration validation, and output rendering. Directory
//! traversal, thread spawning and printing are left to the binary around
//! the library.

pub mod config;
pub mod discover;
pub mod partition;
pub mod render;
pub mod scan;
pub mod text;
