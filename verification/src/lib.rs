//! Bookmark shelf: browser bookmark files as a directory tree.
pub mod checker;
pub mod config;
pub mod dom;
pub mod exporter;
pub mod fs;
pub mod importer;
pub mod roundtrip;
pub mod shortcut;
pub mod text;
pub mod tree;
