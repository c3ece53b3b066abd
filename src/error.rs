//! Why an operation on the task tree was refused.
use vstd::prelude::*;

verus! {

#[derive(Debug, Clone, Copy, PartialEq, Eq, Structural)]
pub enum TaskError {
    /// An id has an empty, zero or non-numeric component.
    MalformedId,
    /// A component of an id goes past the end of the list at its depth.
    IdOutOfRange,
    /// The operation addresses a task, but there are none.
    EmptyTree,
    /// One of two ids names a task beneath the other, so the two cannot trade
    /// places and the first cannot move there.
    NestedIds,
}

impl TaskError {
    /// What went wrong, in words.
    pub fn message(&self) -> (r: &'static str)
        ensures
            r@ == match self {
                TaskError::MalformedId => "an id is malformed"@,
                TaskError::IdOutOfRange => "an id is out of bounds"@,
                TaskError::EmptyTree => "the task list is empty"@,
                TaskError::NestedIds => "one id lies beneath the other"@,
            },
    {
        match self {
            TaskError::MalformedId => "an id is malformed",
            TaskError::IdOutOfRange => "an id is out of bounds",
            TaskError::EmptyTree => "the task list is empty",
            TaskError::NestedIds => "one id lies beneath the other",
        }
    }
}

} // verus!
