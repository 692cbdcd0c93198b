use vstd::prelude::*;
use crate::events::{exclusive, lemma_exclusive_prefix, lemma_push, picks, puts, sound_log, Event};
use crate::fork::SimError;

verus! {

/// What one philosopher's concurrent meal reports back.
#[derive(Debug, Clone, Copy, PartialEq, Eq, Structural)]
pub struct MealRecord {
    pub philosopher: usize,
    /// Time from the start of its wait to the end of its meal, in milliseconds.
    pub elapsed_ms: u64,
}

/// What a finished concurrent run reports.
#[derive(Debug, PartialEq, Eq)]
pub struct RunReport {
    /// Wall-clock time of the whole run, in milliseconds.
    pub total_ms: u64,
    /// One record per philosopher, in seat order.
    pub meals: Vec<MealRecord>,
}

/// No result of `results` before index `k` is an error.
pub open spec fn all_ok_before(results: Seq<Result<MealRecord, SimError>>, k: int) -> bool {
    forall|i: int| 0 <= i < k ==> (#[trigger] results[i]) is Ok
}

/// Fans the per-philosopher results in: the report with every record in
/// order when all succeeded, else the first error, so that a poisoned fork
/// is never reported as a finished run.
pub fn gather(results: &Vec<Result<MealRecord, SimError>>, total_ms: u64) -> (r: Result<RunReport, SimError>)
    ensures
        r is Ok <==> all_ok_before(results@, results@.len() as int),
        r matches Ok(rep) ==> {
            &&& rep.total_ms == total_ms
            &&& rep.meals@.len() == results@.len()
            &&& forall|i: int| 0 <= i < results@.len() ==> results@[i] == Ok::<MealRecord, SimError>(#[trigger] rep.meals@[i])
        },
        r matches Err(e) ==> exists|k: int|
            0 <= k < results@.len() && all_ok_before(results@, k) && #[trigger] results@[k] == Err::<MealRecord, SimError>(e),
{
    let mut meals: Vec<MealRecord> = Vec::new();
    let mut i: usize = 0;
    while i < results.len()
        invariant
            i <= results@.len(),
            all_ok_before(results@, i as int),
            meals@.len() == i,
            forall|j: int| 0 <= j < i ==> results@[j] == Ok::<MealRecord, SimError>(#[trigger] meals@[j]),
        decreases results@.len() - i,
    {
        match results[i] {
            Ok(m) => meals.push(m),
            Err(e) => {
                assert(results@[i as int] == Err::<MealRecord, SimError>(e));
                return Err(e);
            },
        }
        i = i + 1;
    }
    Ok(RunReport { total_ms, meals })
}

/// The decision a philosopher makes each time it finds fork `fork` taken,
/// after waiting `waited_ms`: keep waiting, or give up with
/// `AcquisitionTimeout` once a bound `timeout_ms` is given and reached.
/// Without a bound it waits for as long as it takes.
pub fn on_busy(fork: usize, waited_ms: u64, timeout_ms: Option<u64>) -> (r: Result<(), SimError>)
    ensures
        r == match timeout_ms {
            Some(t) if waited_ms >= t => Err::<(), SimError>(SimError::AcquisitionTimeout { fork }),
            _ => Ok::<(), SimError>(()),
        },
{
    match timeout_ms {
        Some(t) => {
            if waited_ms >= t {
                Err(SimError::AcquisitionTimeout { fork })
            } else {
                Ok(())
            }
        },
        None => Ok(()),
    }
}

/// Audits a log recorded by a run over `forks` forks: true exactly when it
/// names only forks of the pool, never has a fork held twice at once, and
/// has every picked-up fork put down again.
pub fn check_events(log: &Vec<Event>, forks: usize) -> (r: bool)
    ensures
        r == sound_log(log@, forks),
{
    let mut held: Vec<bool> = Vec::new();
    let mut f: usize = 0;
    while f < forks
        invariant
            f <= forks,
            held@.len() == f,
            forall|g: int| 0 <= g < f ==> !(#[trigger] held@[g]),
        decreases forks - f,
    {
        held.push(false);
        f = f + 1;
    }
    assert(log@.take(0) =~= Seq::<Event>::empty());
    let mut i: usize = 0;
    while i < log.len()
        invariant
            i <= log@.len(),
            held@.len() == forks,
            forall|j: int|
                0 <= j < i ==> match #[trigger] log@[j] {
                    Event::PickedUp { fork, .. } => fork < forks,
                    Event::PutDown { fork, .. } => fork < forks,
                    _ => true,
                },
            forall|g: usize| g < forks ==> #[trigger] exclusive(log@.take(i as int), g),
            forall|g: usize|
                g < forks ==> #[trigger] picks(log@.take(i as int), g) == puts(log@.take(i as int), g)
                    + if held@[g as int] { 1nat } else { 0nat },
        decreases log@.len() - i,
    {
        let e = log[i];
        proof {
            assert(log@.take(i as int).push(e) =~= log@.take(i + 1));
            lemma_push(log@.take(i as int), e);
        }
        match e {
            Event::PickedUp { fork, .. } => {
                if fork >= forks {
                    return false;
                }
                if held[fork] {
                    proof {
                        lemma_refuted_prefix(log@, fork, i as int + 1);
                    }
                    return false;
                }
                held.set(fork, true);
            },
            Event::PutDown { fork, .. } => {
                if fork >= forks {
                    return false;
                }
                if !held[fork] {
                    proof {
                        lemma_refuted_prefix(log@, fork, i as int + 1);
                    }
                    return false;
                }
                held.set(fork, false);
            },
            _ => {},
        }
        i = i + 1;
    }
    assert(log@.take(i as int) =~= log@);
    let mut g: usize = 0;
    while g < forks
        invariant
            g <= forks,
            held@.len() == forks,
            i == log@.len(),
            log@.take(i as int) == log@,
            forall|h: usize| h < forks ==> #[trigger] exclusive(log@, h),
            forall|h: usize|
                h < forks ==> #[trigger] picks(log@, h) == puts(log@, h) + if held@[h as int] { 1nat } else { 0nat },
            forall|h: usize| h < g ==> !(#[trigger] held@[h as int]),
        decreases forks - g,
    {
        if held[g] {
            assert(picks(log@, g) != puts(log@, g));
            return false;
        }
        g = g + 1;
    }
    true
}

proof fn lemma_refuted_prefix(log: Seq<Event>, f: usize, k: int)
    requires
        0 <= k <= log.len(),
        !exclusive(log.take(k), f),
    ensures
        !exclusive(log, f),
{
    if exclusive(log, f) {
        lemma_exclusive_prefix(log, f, k);
    }
}

} // verus!
