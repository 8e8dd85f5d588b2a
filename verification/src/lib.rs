//! Counting the files of a directory tree whose names end in one of a set of
//! extensions.
//!
//! The crate holds the rules and leaves the file system to its caller: a
//! traversal is handed in as a listing of what it reported, and the functions
//! here decide which of the reported files count.

pub mod extension;
pub mod file_counter;

pub use extension::{combine_extensions, default_extensions, has_valid_extension};
pub use file_counter::{depth_limit, find_files, Entry, EntryKind, FindError, WalkEvent};
