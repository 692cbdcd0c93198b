use vstd::prelude::*;

verus! {

/// One observable step of a philosopher's meal.
#[derive(Debug, Clone, Copy, PartialEq, Eq, Structural)]
pub enum Event {
    PickedUp { philosopher: usize, fork: usize },
    Eating { philosopher: usize },
    Finished { philosopher: usize },
    PutDown { philosopher: usize, fork: usize },
}

/// `e` picks up fork `f`.
pub open spec fn is_pick(e: Event, f: usize) -> bool {
    e matches Event::PickedUp { fork, .. } && fork == f
}

/// `e` puts down fork `f`.
pub open spec fn is_put(e: Event, f: usize) -> bool {
    e matches Event::PutDown { fork, .. } && fork == f
}

/// `e` is philosopher `p` picking up fork `f`.
pub open spec fn is_pick_by(e: Event, p: usize, f: usize) -> bool {
    e matches Event::PickedUp { philosopher, fork } && philosopher == p && fork == f
}

/// `e` ends a meal of philosopher `p`.
pub open spec fn is_meal(e: Event, p: usize) -> bool {
    e matches Event::Finished { philosopher } && philosopher == p
}

/// `e` names only philosophers below `seats` and forks below `forks`.
pub open spec fn event_in_range(e: Event, forks: usize, seats: usize) -> bool {
    match e {
        Event::PickedUp { philosopher, fork } => philosopher < seats && fork < forks,
        Event::Eating { philosopher } => philosopher < seats,
        Event::Finished { philosopher } => philosopher < seats,
        Event::PutDown { philosopher, fork } => philosopher < seats && fork < forks,
    }
}

/// How many times fork `f` is picked up in `log`.
pub open spec fn picks(log: Seq<Event>, f: usize) -> nat
    decreases log.len(),
{
    if log.len() == 0 {
        0
    } else {
        picks(log.drop_last(), f) + if is_pick(log.last(), f) { 1nat } else { 0nat }
    }
}

/// How many times fork `f` is put down in `log`.
pub open spec fn puts(log: Seq<Event>, f: usize) -> nat
    decreases log.len(),
{
    if log.len() == 0 {
        0
    } else {
        puts(log.drop_last(), f) + if is_put(log.last(), f) { 1nat } else { 0nat }
    }
}

/// How many times philosopher `p` picks up fork `f` in `log`.
pub open spec fn picks_by(log: Seq<Event>, p: usize, f: usize) -> nat
    decreases log.len(),
{
    if log.len() == 0 {
        0
    } else {
        picks_by(log.drop_last(), p, f) + if is_pick_by(log.last(), p, f) { 1nat } else { 0nat }
    }
}

/// Philosopher `p` never picks up fork `hi` more often than fork `lo` in any
/// prefix of `log`: it reaches for `lo` first.
pub open spec fn lower_first(log: Seq<Event>, p: usize, lo: usize, hi: usize) -> bool
    decreases log.len(),
{
    if log.len() == 0 {
        true
    } else {
        lower_first(log.drop_last(), p, lo, hi) && picks_by(log, p, hi) <= picks_by(log, p, lo)
    }
}

/// How many meals philosopher `p` finishes in `log`.
pub open spec fn meals(log: Seq<Event>, p: usize) -> nat
    decreases log.len(),
{
    if log.len() == 0 {
        0
    } else {
        meals(log.drop_last(), p) + if is_meal(log.last(), p) { 1nat } else { 0nat }
    }
}

/// Fork `f` is never held twice at once in `log`: in every prefix, the
/// pick-ups of `f` run ahead of its put-downs by zero or one.
pub open spec fn exclusive(log: Seq<Event>, f: usize) -> bool
    decreases log.len(),
{
    if log.len() == 0 {
        true
    } else {
        &&& exclusive(log.drop_last(), f)
        &&& puts(log, f) <= picks(log, f) <= puts(log, f) + 1
    }
}

/// A log that a correct run over `forks` forks may leave: it names only
/// forks of the pool, no fork is ever held twice at once, and every fork
/// picked up has been put down again.
pub open spec fn sound_log(log: Seq<Event>, forks: usize) -> bool {
    &&& forall|i: int|
        0 <= i < log.len() ==> match #[trigger] log[i] {
            Event::PickedUp { fork, .. } => fork < forks,
            Event::PutDown { fork, .. } => fork < forks,
            _ => true,
        }
    &&& forall|f: usize| f < forks ==> #[trigger] exclusive(log, f)
    &&& forall|f: usize| f < forks ==> #[trigger] picks(log, f) == puts(log, f)
}

/// The counts over `log.push(e)` are those over `log` plus what `e` adds.
pub proof fn lemma_push(log: Seq<Event>, e: Event)
    ensures
        forall|f: usize| #[trigger]
            picks(log.push(e), f) == picks(log, f) + if is_pick(e, f) { 1nat } else { 0nat },
        forall|f: usize| #[trigger]
            puts(log.push(e), f) == puts(log, f) + if is_put(e, f) { 1nat } else { 0nat },
        forall|p: usize| #[trigger]
            meals(log.push(e), p) == meals(log, p) + if is_meal(e, p) { 1nat } else { 0nat },
        forall|p: usize, f: usize| #[trigger]
            picks_by(log.push(e), p, f) == picks_by(log, p, f) + if is_pick_by(e, p, f) { 1nat } else { 0nat },
        forall|p: usize, lo: usize, hi: usize| #[trigger]
            lower_first(log.push(e), p, lo, hi) == (lower_first(log, p, lo, hi) && picks_by(log.push(e), p, hi)
                <= picks_by(log.push(e), p, lo)),
        forall|f: usize| #[trigger]
            exclusive(log.push(e), f) == (exclusive(log, f) && puts(log.push(e), f) <= picks(
                log.push(e),
                f,
            ) <= puts(log.push(e), f) + 1),
{
    assert(log.push(e).drop_last() =~= log);
}

/// Exclusivity of a log carries over to each of its prefixes.
pub proof fn lemma_exclusive_prefix(log: Seq<Event>, f: usize, k: int)
    requires
        exclusive(log, f),
        0 <= k <= log.len(),
    ensures
        exclusive(log.take(k), f),
    decreases log.len() - k,
{
    if k < log.len() {
        assert(log.take(k + 1).drop_last() =~= log.take(k));
        lemma_exclusive_prefix(log, f, k + 1);
    } else {
        assert(log.take(k) =~= log);
    }
}

} // verus!
