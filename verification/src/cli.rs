//! The command line.
use vstd::prelude::*;

verus! {

/// The command line's arguments: the image file or directory to open
/// (the current directory when absent).
#[derive(Debug, Clone, PartialEq, Eq)]
pub struct Args {
    pub path: Option<String>,
}

impl Args {
    /// Arguments that open `path`.
    pub fn new(path: Option<String>) -> (r: Self)
        ensures
            r.path == path,
    {
        Args { path }
    }
}

} // verus!
