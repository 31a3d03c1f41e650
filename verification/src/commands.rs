use vstd::prelude::*;
use crate::jobs;
use crate::nodes::Model;

verus! {

/// What opening a library gives: the stored tree, or the job that indexes the path.
#[derive(Clone, Debug)]
pub enum LibraryOpenResult {
    Node(Model),
    Job(jobs::Model),
}

/// Opening a library once the tree at the path has been looked up: the tree when it
/// is stored; `None` when the path must be indexed first, which the caller answers
/// with the indexing job.
pub fn open_with_tree(tree: Option<Model>) -> (opened: Option<LibraryOpenResult>)
    ensures
        tree is None ==> opened is None,
        tree matches Some(t) ==> opened == Some(LibraryOpenResult::Node(t)),
{
    match tree {
        Some(t) => Some(LibraryOpenResult::Node(t)),
        None => None,
    }
}

/// Why the open command that indexes in the foreground could not open a library.
#[derive(Clone, Copy, Debug, PartialEq, Eq, Structural)]
pub enum OpenError {
    PathNotFound,
}

impl OpenError {
    /// The error's text.
    pub fn message(&self) -> (m: &'static str)
        ensures
            m@ == "Path not found"@,
    {
        "Path not found"
    }
}

/// The next step of the open command that indexes in the foreground.
#[derive(Debug)]
pub enum OpenStep {
    /// Load the children of this stored root node and answer with it.
    Expand(Model),
    /// Index the path, then look it up again.
    Index,
    /// Answer with this error.
    Fail(OpenError),
}

/// The step after looking the path up: expand a stored node; otherwise index the
/// path, unless that was done already, in which case the path is not found.
pub fn open_step(found: Option<Model>, indexed: bool) -> (step: OpenStep)
    ensures
        found matches Some(m) ==> step == OpenStep::Expand(m),
        found is None && !indexed ==> step == OpenStep::Index,
        found is None && indexed ==> step == OpenStep::Fail(OpenError::PathNotFound),
{
    match found {
        Some(m) => OpenStep::Expand(m),
        None => if indexed {
            OpenStep::Fail(OpenError::PathNotFound)
        } else {
            OpenStep::Index
        },
    }
}

} // verus!
