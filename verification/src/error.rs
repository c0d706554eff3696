//! Recoverable, value-carrying errors of the tree engine.
//!
//! Every operation rejects an invalid request deterministically and returns
//! one of these kinds; nothing here aborts the process.

use vstd::prelude::*;

use crate::task_id::TaskId;

verus! {

/// The mathematical value of an [`Error`]: the same kinds over the
/// identifier's sequence view and the text's character view.
pub enum ErrorView {
    TaskNotFound(Seq<u32>),
    NoParent(Seq<u32>),
    NoChildIndex(Seq<u32>),
    BadTaskIdString(Seq<char>),
    BadTaskIdNum,
    NoNextSibling(Seq<u32>),
    NoPrevSibling(Seq<u32>),
    TrunkCannotBeRemoved(Seq<u32>),
    TrunkCannotChangeCost(Seq<u32>),
    TrunkCannotChangeValue(Seq<u32>),
    TrunkCannotChangeStatus(Seq<u32>),
    TrunkCannotAddMember(Seq<u32>),
    CannotRemoveMemberFromTask(Seq<u32>, Seq<char>),
}

/// An error kind, carrying the identifier or text that was rejected.
#[derive(Debug)]
pub enum Error {
    /// No task with this identifier is in the store.
    TaskNotFound(TaskId),
    /// The root identifier has no parent.
    NoParent(TaskId),
    /// The root identifier has no child index.
    NoChildIndex(TaskId),
    /// The text is not a dot-separated list of positive integers.
    BadTaskIdString(String),
    /// A child index must be positive.
    BadTaskIdNum,
    /// No sibling with the next index exists.
    NoNextSibling(TaskId),
    /// No sibling with the previous index exists.
    NoPrevSibling(TaskId),
    /// A task with children cannot be removed.
    TrunkCannotBeRemoved(TaskId),
    /// The actual cost of a task with children is derived, never set.
    TrunkCannotChangeCost(TaskId),
    /// The planned value of a task with children is derived, never set.
    TrunkCannotChangeValue(TaskId),
    /// The status of a task with children is derived, never set.
    TrunkCannotChangeStatus(TaskId),
    /// A member can be assigned to work packages only.
    TrunkCannotAddMember(TaskId),
    /// The named member is not assigned to the named task.
    CannotRemoveMemberFromTask(TaskId, String),
}

impl View for Error {
    type V = ErrorView;

    open spec fn view(&self) -> ErrorView {
        match self {
            Error::TaskNotFound(id) => ErrorView::TaskNotFound(id@),
            Error::NoParent(id) => ErrorView::NoParent(id@),
            Error::NoChildIndex(id) => ErrorView::NoChildIndex(id@),
            Error::BadTaskIdString(s) => ErrorView::BadTaskIdString(s@),
            Error::BadTaskIdNum => ErrorView::BadTaskIdNum,
            Error::NoNextSibling(id) => ErrorView::NoNextSibling(id@),
            Error::NoPrevSibling(id) => ErrorView::NoPrevSibling(id@),
            Error::TrunkCannotBeRemoved(id) => ErrorView::TrunkCannotBeRemoved(id@),
            Error::TrunkCannotChangeCost(id) => ErrorView::TrunkCannotChangeCost(id@),
            Error::TrunkCannotChangeValue(id) => ErrorView::TrunkCannotChangeValue(id@),
            Error::TrunkCannotChangeStatus(id) => ErrorView::TrunkCannotChangeStatus(id@),
            Error::TrunkCannotAddMember(id) => ErrorView::TrunkCannotAddMember(id@),
            Error::CannotRemoveMemberFromTask(id, name) => ErrorView::CannotRemoveMemberFromTask(
                id@,
                name@,
            ),
        }
    }
}

impl PartialEq for Error {
    fn eq(&self, other: &Self) -> (r: bool) {
        match (self, other) {
            (Error::TaskNotFound(a), Error::TaskNotFound(b)) => a == b,
            (Error::NoParent(a), Error::NoParent(b)) => a == b,
            (Error::NoChildIndex(a), Error::NoChildIndex(b)) => a == b,
            (Error::BadTaskIdString(a), Error::BadTaskIdString(b)) => *a == *b,
            (Error::BadTaskIdNum, Error::BadTaskIdNum) => true,
            (Error::NoNextSibling(a), Error::NoNextSibling(b)) => a == b,
            (Error::NoPrevSibling(a), Error::NoPrevSibling(b)) => a == b,
            (Error::TrunkCannotBeRemoved(a), Error::TrunkCannotBeRemoved(b)) => a == b,
            (Error::TrunkCannotChangeCost(a), Error::TrunkCannotChangeCost(b)) => a == b,
            (Error::TrunkCannotChangeValue(a), Error::TrunkCannotChangeValue(b)) => a == b,
            (Error::TrunkCannotChangeStatus(a), Error::TrunkCannotChangeStatus(b)) => a == b,
            (Error::TrunkCannotAddMember(a), Error::TrunkCannotAddMember(b)) => a == b,
            (
                Error::CannotRemoveMemberFromTask(a, an),
                Error::CannotRemoveMemberFromTask(b, bn),
            ) => a == b && *an == *bn,
            _ => {
                proof {
                    assert(self@ != other@);
                }
                false
            },
        }
    }
}

impl vstd::std_specs::cmp::PartialEqSpecImpl for Error {
    open spec fn obeys_eq_spec() -> bool {
        true
    }

    open spec fn eq_spec(&self, other: &Self) -> bool {
        self@ == other@
    }
}

} // verus!
