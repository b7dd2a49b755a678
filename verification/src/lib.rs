//! A small library for managing "books": text files with the `str`
//! extension kept in per-language subfolders of a project's `books`
//! directory. The library holds the state of the manager application,
//! the discovery routine that finds and groups book files, and the
//! path arithmetic both are built on. All I/O (the window, the file
//! dialog, the directory walk itself) is the caller's business: the
//! library works on plain path strings and file lists.

pub mod application;
pub mod file;
pub mod paths;
pub mod project;

use vstd::prelude::*;

verus! {

/// What can go wrong while the application loads a file or asks the
/// user for a folder.
#[derive(Debug, Clone, PartialEq, Eq, Structural)]
pub enum Error {
    /// The user closed the picker without choosing anything.
    DialogClosed,
    /// Reading the file failed.
    IO,
}

} // verus!
