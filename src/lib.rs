//! Finds image files in a directory tree that no markdown document refers to.
//!
//! The library decides; the caller does the filesystem work. It parses image
//! references out of markdown text, lists in order the paths that a reference may
//! name, picks the first canonical one inside the scan root, classifies files by
//! extension, and computes the sorted set of orphaned images.
pub mod cli;
pub mod error;
pub mod parser;
pub mod paths;
pub mod scanner;
pub mod text;

pub use cli::{Action, Cli};
pub use error::Error;
pub use parser::extract_image_references;
pub use paths::display_relative_path;
pub use scanner::scan_for_orphans;
