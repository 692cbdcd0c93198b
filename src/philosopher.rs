use vstd::prelude::*;
use crate::fork::Fork;

verus! {

/// An actor of the simulation: it needs both of its forks at once to eat.
#[derive(Debug)]
pub struct Philosopher {
    pub id: usize,
    pub name: String,
    pub left_fork: Fork,
    pub right_fork: Fork,
}

/// The lower of two fork ids: the one that is always picked up first.
pub open spec fn lower_id(a: usize, b: usize) -> usize {
    if a <= b { a } else { b }
}

/// The higher of two fork ids: the one that is picked up second.
pub open spec fn upper_id(a: usize, b: usize) -> usize {
    if a <= b { b } else { a }
}

impl Philosopher {
    /// The fork this philosopher picks up first.
    pub open spec fn first_id(&self) -> usize {
        lower_id(self.left_fork.id, self.right_fork.id)
    }

    /// The fork this philosopher picks up second (the same fork when both
    /// sides name one fork).
    pub open spec fn second_id(&self) -> usize {
        upper_id(self.left_fork.id, self.right_fork.id)
    }

    /// A philosopher seated between `left_fork` and `right_fork`.
    pub fn new(id: usize, name: &str, left_fork: Fork, right_fork: Fork) -> (r: Philosopher)
        ensures
            r.id == id,
            r.name@ == name@,
            r.left_fork == left_fork,
            r.right_fork == right_fork,
    {
        Philosopher { id, name: name.to_owned(), left_fork, right_fork }
    }

    /// The two forks in the order they are picked up: lower id first,
    /// whichever side it lies on.
    pub fn acquisition_order(&self) -> (r: (Fork, Fork))
        ensures
            r.0.id == self.first_id(),
            r.1.id == self.second_id(),
            r.0.id <= r.1.id,
    {
        if self.left_fork.id <= self.right_fork.id {
            (self.left_fork, self.right_fork)
        } else {
            (self.right_fork, self.left_fork)
        }
    }
}

} // verus!
