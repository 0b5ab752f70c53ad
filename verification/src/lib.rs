//! Merging zip containers into one, with a policy that settles which input
//! wins where several inputs hold the same path.
//!
//! Containers are ingested one by one with [`ZipMerger::add`]. Every entry is
//! listed under its safe relative path, and [`ZipMerger::write`] assembles the
//! output: it visits the paths in ascending order and copies, for each path,
//! the bytes of the candidate that the policy picked.

pub mod candidate;
pub mod catalog;
pub mod codec;
pub mod error;
pub mod laws;
pub mod listing;
pub mod merger;
pub mod options;
pub mod order;
pub mod path;
pub mod selector;

pub use crate::candidate::{default_file_selector, Index};
pub use crate::error::{Fault, MergeError};
pub use crate::merger::ZipMerger;
pub use crate::options::{Compression, WriteOptions};
pub use crate::selector::{DefaultSelector, FileSelector};
