//! Directory-tree inspection library.
//!
//! Given a model of a directory subtree, the library resolves per-entry
//! metadata, walks the tree with an explicit stack (detecting symlink cycles
//! and blocking symlinks that escape the scan root), applies a filter
//! pipeline, and renders the result in several output encodings.

pub mod config;
pub mod diff;
pub mod engine;
pub mod filters;
pub mod meta;
pub mod gitignore;
pub mod gitmap;
pub mod pathops;
pub mod pattern;
pub mod render;
pub mod resolver;
pub mod text;
