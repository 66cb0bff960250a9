use vstd::prelude::*;

verus! {

/// Outcome of polling a task handed to a worker.
pub enum Poll<T> {
    /// The task is queued or running.
    Pending,
    /// The task has finished; here is its output.
    Ready(T),
    /// The output was already taken by an earlier poll.
    Finished,
}

/// A unit of work that a worker thread runs to completion.
pub trait Task {
    type Output;

    fn process(self) -> Self::Output;
}

} // verus!
