use vstd::prelude::*;
use crate::fork::{ForkPool, SimError};
use crate::philosopher::Philosopher;

verus! {

/// One seat of a topology: the philosopher's name and its left and right
/// fork ids.
pub type Seat = (String, usize, usize);

/// The seat names only forks of a pool of `count`.
pub open spec fn seat_in_range(seat: Seat, count: usize) -> bool {
    seat.1 < count && seat.2 < count
}

/// Every seat names only forks of the pool.
pub open spec fn seating_in_range(seating: Seq<Seat>, count: usize) -> bool {
    forall|i: int| 0 <= i < seating.len() ==> #[trigger] seat_in_range(seating[i], count)
}

/// The fork a bad seat is reported with: its left fork when that one is out
/// of range, else its right fork.
pub open spec fn bad_fork(seat: Seat, count: usize) -> usize {
    if seat.1 >= count { seat.1 } else { seat.2 }
}

/// What seating `seating` at a pool of `count` forks yields: on success one
/// philosopher per seat, numbered in seat order and bound to exactly the
/// seat's forks; otherwise `OutOfRange` for the first seat that names a
/// missing fork.
pub open spec fn seated(count: usize, seating: Seq<Seat>, r: Result<Vec<Philosopher>, SimError>) -> bool {
    match r {
        Ok(v) => {
            &&& seating_in_range(seating, count)
            &&& v@.len() == seating.len()
            &&& forall|i: int|
                0 <= i < seating.len() ==> {
                    &&& (#[trigger] v@[i]).id == i
                    &&& v@[i].name@ == seating[i].0@
                    &&& v@[i].left_fork.id == seating[i].1
                    &&& v@[i].right_fork.id == seating[i].2
                }
        },
        Err(e) => exists|k: int|
            {
                &&& 0 <= k < seating.len()
                &&& !seat_in_range(#[trigger] seating[k], count)
                &&& forall|j: int| 0 <= j < k ==> #[trigger] seat_in_range(seating[j], count)
                &&& e == SimError::OutOfRange { philosopher: k as usize, fork: bad_fork(seating[k], count) }
            },
    }
}

/// The ring topology: philosopher `i` sits between forks `i mod count` and
/// `(i + 1) mod count`.
pub fn ring_topology(philosophers: usize, count: usize) -> (r: Vec<(usize, usize)>)
    requires
        count > 0,
    ensures
        r@.len() == philosophers,
        forall|i: int|
            0 <= i < philosophers ==> #[trigger] r@[i] == ((i % count as int) as usize, ((i + 1)
                % count as int) as usize),
{
    let mut r: Vec<(usize, usize)> = Vec::new();
    let mut i: usize = 0;
    let mut left: usize = 0;
    while i < philosophers
        invariant
            count > 0,
            i <= philosophers,
            left == i % count,
            r@.len() == i,
            forall|j: int|
                0 <= j < i ==> #[trigger] r@[j] == ((j % count as int) as usize, ((j + 1)
                    % count as int) as usize),
        decreases philosophers - i,
    {
        let right: usize = if left + 1 == count { 0 } else { left + 1 };
        proof {
            lemma_mod_step(i as int, count as int);
        }
        r.push((left, right));
        left = right;
        i = i + 1;
    }
    r
}

proof fn lemma_mod_step(i: int, n: int)
    requires
        0 <= i,
        0 < n,
    ensures
        (i + 1) % n == if i % n + 1 == n { 0 } else { i % n + 1 },
{
    assert((i + 1) % n == if i % n + 1 == n { 0 } else { i % n + 1 }) by (nonlinear_arith)
        requires 0 <= i, 0 < n;
}

/// Names each philosopher `names[i]` and seats it on the ring of `count` forks.
pub fn ring_seating(names: &Vec<String>, count: usize) -> (r: Vec<Seat>)
    requires
        count > 0,
    ensures
        r@.len() == names@.len(),
        forall|i: int|
            0 <= i < names@.len() ==> {
                &&& (#[trigger] r@[i]).0@ == names@[i]@
                &&& r@[i].1 == i % count as int
                &&& r@[i].2 == (i + 1) % count as int
            },
{
    let ring = ring_topology(names.len(), count);
    let mut r: Vec<Seat> = Vec::new();
    let mut i: usize = 0;
    while i < names.len()
        invariant
            count > 0,
            i <= names@.len(),
            ring@.len() == names@.len(),
            forall|j: int|
                0 <= j < names@.len() ==> #[trigger] ring@[j] == ((j % count as int) as usize, ((j
                    + 1) % count as int) as usize),
            r@.len() == i,
            forall|j: int|
                0 <= j < i ==> {
                    &&& (#[trigger] r@[j]).0@ == names@[j]@
                    &&& r@[j].1 == j % count as int
                    &&& r@[j].2 == (j + 1) % count as int
                },
        decreases names@.len() - i,
    {
        let (left, right) = ring[i];
        r.push((names[i].clone(), left, right));
        i = i + 1;
    }
    r
}

/// Builds one philosopher per seat, each bound to the seat's forks of `pool`.
/// Any seat naming a fork outside the pool is refused before anything runs.
pub fn seat_philosophers(pool: &ForkPool, seating: &Vec<Seat>) -> (r: Result<Vec<Philosopher>, SimError>)
    ensures
        seated(pool.count, seating@, r),
{
    let mut v: Vec<Philosopher> = Vec::new();
    let mut i: usize = 0;
    while i < seating.len()
        invariant
            i <= seating@.len(),
            v@.len() == i,
            forall|j: int| 0 <= j < i ==> #[trigger] seat_in_range(seating@[j], pool.count),
            forall|j: int|
                0 <= j < i ==> {
                    &&& (#[trigger] v@[j]).id == j
                    &&& v@[j].name@ == seating@[j].0@
                    &&& v@[j].left_fork.id == seating@[j].1
                    &&& v@[j].right_fork.id == seating@[j].2
                },
        decreases seating@.len() - i,
    {
        let left = match pool.handle(i, seating[i].1) {
            Ok(f) => f,
            Err(e) => {
                assert(!seat_in_range(seating@[i as int], pool.count));
                return Err(e);
            },
        };
        let right = match pool.handle(i, seating[i].2) {
            Ok(f) => f,
            Err(e) => {
                assert(!seat_in_range(seating@[i as int], pool.count));
                return Err(e);
            },
        };
        v.push(Philosopher::new(i, seating[i].0.as_str(), left, right));
        i = i + 1;
    }
    Ok(v)
}

/// Seating is deterministic: two seatings of the same topology at the same
/// pool bind every philosopher to the same forks, under the same id and
/// name, and fail alike.
pub proof fn lemma_seating_deterministic(
    count: usize,
    seating: Seq<Seat>,
    r1: Result<Vec<Philosopher>, SimError>,
    r2: Result<Vec<Philosopher>, SimError>,
)
    requires
        seated(count, seating, r1),
        seated(count, seating, r2),
    ensures
        r1.is_ok() == r2.is_ok(),
        r1.is_ok() ==> r1->Ok_0@.len() == r2->Ok_0@.len() && forall|i: int|
            0 <= i < r1->Ok_0@.len() ==> {
                &&& (#[trigger] r1->Ok_0@[i]).id == r2->Ok_0@[i].id
                &&& r1->Ok_0@[i].name@ == r2->Ok_0@[i].name@
                &&& r1->Ok_0@[i].left_fork == r2->Ok_0@[i].left_fork
                &&& r1->Ok_0@[i].right_fork == r2->Ok_0@[i].right_fork
            },
        r1.is_err() ==> r1 == r2,
{
    match (r1, r2) {
        (Ok(v1), Ok(v2)) => {
            assert forall|i: int| 0 <= i < v1@.len() implies {
                &&& (#[trigger] v1@[i]).id == v2@[i].id
                &&& v1@[i].name@ == v2@[i].name@
                &&& v1@[i].left_fork == v2@[i].left_fork
                &&& v1@[i].right_fork == v2@[i].right_fork
            } by {
                assert(v1@[i].left_fork.id == v2@[i].left_fork.id);
                assert(v1@[i].right_fork.id == v2@[i].right_fork.id);
            }
        },
        (Ok(v1), Err(e2)) => {
            let k = choose|k: int| {
                &&& 0 <= k < seating.len()
                &&& !seat_in_range(#[trigger] seating[k], count)
                &&& forall|j: int| 0 <= j < k ==> #[trigger] seat_in_range(seating[j], count)
                &&& e2 == SimError::OutOfRange { philosopher: k as usize, fork: bad_fork(seating[k], count) }
            };
            assert(seat_in_range(seating[k], count));
        },
        (Err(e1), Ok(v2)) => {
            let k = choose|k: int| {
                &&& 0 <= k < seating.len()
                &&& !seat_in_range(#[trigger] seating[k], count)
                &&& forall|j: int| 0 <= j < k ==> #[trigger] seat_in_range(seating[j], count)
                &&& e1 == SimError::OutOfRange { philosopher: k as usize, fork: bad_fork(seating[k], count) }
            };
            assert(seat_in_range(seating[k], count));
        },
        (Err(e1), Err(e2)) => {
            let k1 = choose|k: int| {
                &&& 0 <= k < seating.len()
                &&& !seat_in_range(#[trigger] seating[k], count)
                &&& forall|j: int| 0 <= j < k ==> #[trigger] seat_in_range(seating[j], count)
                &&& e1 == SimError::OutOfRange { philosopher: k as usize, fork: bad_fork(seating[k], count) }
            };
            let k2 = choose|k: int| {
                &&& 0 <= k < seating.len()
                &&& !seat_in_range(#[trigger] seating[k], count)
                &&& forall|j: int| 0 <= j < k ==> #[trigger] seat_in_range(seating[j], count)
                &&& e2 == SimError::OutOfRange { philosopher: k as usize, fork: bad_fork(seating[k], count) }
            };
            if k1 < k2 {
                assert(seat_in_range(seating[k1], count));
            } else if k2 < k1 {
                assert(seat_in_range(seating[k2], count));
            }
        },
    }
}

} // verus!
