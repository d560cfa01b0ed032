use vstd::prelude::*;

verus! {

/// Every failure the core can report.
///
/// Path classification itself never fails: every input string has a defined
/// classification. These arise from lifecycle transitions and from loading
/// the persisted state document.
#[derive(Debug, Clone, PartialEq, Eq)]
pub enum BranchError {
    /// The named branch (or the state document itself) does not exist.
    NotFound,
    /// `create` was asked for a branch name that is already taken.
    AlreadyExists,
    /// `create` named a parent that does not resolve to an existing branch.
    UnknownParent,
    /// A transition was attempted from a state that forbids it, or against
    /// the protected default branch.
    InvalidState,
    /// `delete` was attempted on a branch still referenced as a parent.
    DanglingReference,
    /// Failure of the underlying storage, with its message. The pure core
    /// never produces this; the I/O layer around it does.
    Io(String),
}

} // verus!
