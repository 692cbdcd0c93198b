use vstd::prelude::*;

verus! {

/// What can go wrong while building or running a simulation.
#[derive(Debug, Clone, Copy, PartialEq, Eq, Structural)]
pub enum SimError {
    /// A topology names a fork id that the pool does not hold.
    OutOfRange { philosopher: usize, fork: usize },
    /// A holder of this fork stopped abnormally while holding it.
    ResourcePoisoned { fork: usize },
    /// A bounded wait for this fork ran out.
    AcquisitionTimeout { fork: usize },
}

/// A handle on one fork of the pool; forks are ordered by `id`.
#[derive(Debug, Clone, Copy, PartialEq, Eq, Structural)]
pub struct Fork {
    pub id: usize,
}

/// The pool of forks `0..count`, fixed for the whole simulation.
#[derive(Debug, Clone, Copy, PartialEq, Eq, Structural)]
pub struct ForkPool {
    pub count: usize,
}

impl ForkPool {
    /// A pool of `count` forks with ids `0..count`.
    pub fn create(count: usize) -> (r: ForkPool)
        ensures
            r.count == count,
    {
        ForkPool { count }
    }

    /// The handle on fork `id` that philosopher `seat` asks for, or
    /// `OutOfRange` naming both when the pool has no such fork.
    pub fn handle(&self, seat: usize, id: usize) -> (r: Result<Fork, SimError>)
        ensures
            id < self.count ==> r == Ok::<Fork, SimError>(Fork { id }),
            id >= self.count ==> r == Err::<Fork, SimError>(
                SimError::OutOfRange { philosopher: seat, fork: id },
            ),
    {
        if id < self.count {
            Ok(Fork { id })
        } else {
            Err(SimError::OutOfRange { philosopher: seat, fork: id })
        }
    }
}

} // verus!
