use vstd::prelude::*;

pub mod keyboard;
pub mod simple_executor;

verus! {

/// Outcome of resuming a suspendable computation.
#[derive(PartialEq, Eq, Structural, Debug)]
pub enum Poll<T> {
    Ready(T),
    Pending,
}

/// A suspendable computation with no result, owned by the executor's run
/// queue until it completes.
pub struct Task<F> {
    pub future: F,
}

impl<F> Task<F> {
    /// Wraps a computation into a task.
    pub fn new(future: F) -> (r: Self)
        ensures
            r.future == future,
    {
        Task { future }
    }
}

} // verus!
