use vstd::prelude::*;

verus! {

/// The command line: an optional entry file (by default `./dndn`) and an
/// optional command (by default the interactive list).
#[derive(Debug, Clone, PartialEq, Eq)]
pub struct Args {
    pub file_path: Option<String>,
    pub commands: Option<Commands>,
}

/// The commands of the command line.
#[derive(Debug, Clone, PartialEq, Eq)]
pub enum Commands {
    /// Add a new item: the file, the line, and an optional comment.
    Add { file_path: String, line: usize, comment: Option<String> },
    /// Set up the entry file so that git ignores it.
    Init {},
    /// Remove the item at an index.
    Remove { index: usize },
}

} // verus!
