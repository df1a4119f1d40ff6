//! The ways a run fails. Each names the path it failed on, and each ends the run.
use vstd::prelude::*;

verus! {

/// A failure of a run, with the path it concerns.
#[derive(Debug)]
pub enum RunError {
    /// A path given to the run does not exist, or its type cannot be told.
    PathResolution(String),
    /// A directory, a root or one found in a walk, cannot be opened.
    DirectoryOpen(String),
    /// A file that is to be counted cannot be opened.
    FileOpen(String),
    /// Reading a file that is being counted failed.
    Read(String),
}

impl RunError {
    /// The path that the failure concerns.
    pub fn path(&self) -> (r: &String)
        ensures
            r == match self {
                RunError::PathResolution(p) => p,
                RunError::DirectoryOpen(p) => p,
                RunError::FileOpen(p) => p,
                RunError::Read(p) => p,
            },
    {
        match self {
            RunError::PathResolution(p) => p,
            RunError::DirectoryOpen(p) => p,
            RunError::FileOpen(p) => p,
            RunError::Read(p) => p,
        }
    }
}

} // verus!
