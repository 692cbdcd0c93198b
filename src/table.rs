use vstd::prelude::*;
use crate::events::{
    event_in_range, exclusive, lemma_push, lower_first, meals, picks, picks_by, puts, sound_log, Event,
};
use crate::fork::{ForkPool, SimError};
use crate::philosopher::{lower_id, upper_id, Philosopher};
use crate::topology::{seat_in_range, seat_philosophers, seated, seating_in_range, Seat};

verus! {

/// Where a philosopher stands in its single meal.
#[derive(Debug, Clone, Copy, PartialEq, Eq, Structural)]
pub enum Stage {
    /// Holds no fork yet.
    Hungry,
    /// Holds its first (lower) fork and waits for the second.
    HoldsFirst,
    /// Holds both forks; eats during the current step.
    Eating,
    /// Has eaten and put both forks down.
    Done,
}

/// How many philosophers have not eaten yet.
pub open spec fn remaining(s: Seq<Stage>) -> nat
    decreases s.len(),
{
    if s.len() == 0 {
        0
    } else {
        remaining(s.drop_last()) + if s.last() == Stage::Done { 0nat } else { 1nat }
    }
}

proof fn lemma_remaining_update(s: Seq<Stage>, p: int, st: Stage)
    requires
        0 <= p < s.len(),
    ensures
        remaining(s.update(p, st)) + (if s[p] == Stage::Done { 0nat } else { 1nat }) == remaining(s)
            + (if st == Stage::Done { 0nat } else { 1nat }),
    decreases s.len(),
{
    if p == s.len() - 1 {
        assert(s.update(p, st).drop_last() =~= s.drop_last());
    } else {
        lemma_remaining_update(s.drop_last(), p, st);
        assert(s.update(p, st).drop_last() =~= s.drop_last().update(p, st));
    }
}

proof fn lemma_remaining_positive(s: Seq<Stage>, p: int)
    requires
        0 <= p < s.len(),
        s[p] != Stage::Done,
    ensures
        remaining(s) > 0,
    decreases s.len(),
{
    if p < s.len() - 1 {
        lemma_remaining_positive(s.drop_last(), p);
    }
}

proof fn lemma_remaining_witness(s: Seq<Stage>)
    requires
        remaining(s) > 0,
    ensures
        exists|p: int| 0 <= p < s.len() && #[trigger] s[p] != Stage::Done,
    decreases s.len(),
{
    if s.last() == Stage::Done {
        lemma_remaining_witness(s.drop_last());
        let p = choose|p: int| 0 <= p < s.drop_last().len() && #[trigger] s.drop_last()[p] != Stage::Done;
        assert(s[p] != Stage::Done);
    } else {
        assert(s[s.len() - 1] != Stage::Done);
    }
}

proof fn lemma_remaining_zero(s: Seq<Stage>)
    requires
        remaining(s) == 0,
    ensures
        forall|p: int| 0 <= p < s.len() ==> #[trigger] s[p] == Stage::Done,
{
    assert forall|p: int| 0 <= p < s.len() implies #[trigger] s[p] == Stage::Done by {
        if s[p] != Stage::Done {
            lemma_remaining_positive(s, p);
        }
    }
}

proof fn lemma_remaining_all(s: Seq<Stage>)
    requires
        forall|p: int| 0 <= p < s.len() ==> #[trigger] s[p] != Stage::Done,
    ensures
        remaining(s) == s.len(),
    decreases s.len(),
{
    if s.len() > 0 {
        assert forall|p: int| 0 <= p < s.drop_last().len() implies #[trigger] s.drop_last()[p]
            != Stage::Done by {
            assert(s.drop_last()[p] == s[p]);
        }
        lemma_remaining_all(s.drop_last());
    }
}

/// The whole table at one instant: who holds which fork, how far each
/// philosopher has come, and the events so far.
pub struct Table {
    pub forks: usize,
    pub philosophers: Vec<Philosopher>,
    pub holder: Vec<Option<usize>>,
    pub stage: Vec<Stage>,
    pub log: Vec<Event>,
    pub ticks: usize,
}

/// What a finished simulation reports.
pub struct Report {
    /// Work steps taken until every philosopher had eaten.
    pub ticks: usize,
    /// Every pick-up, meal and put-down, in the order they happened.
    pub log: Vec<Event>,
}

impl Table {
    /// How many philosophers sit at the table.
    pub open spec fn seats(&self) -> nat {
        self.philosophers@.len()
    }

    /// The fork philosopher `p` picks up first.
    pub open spec fn first(&self, p: int) -> usize {
        self.philosophers@[p].first_id()
    }

    /// The fork philosopher `p` picks up second.
    pub open spec fn second(&self, p: int) -> usize {
        self.philosophers@[p].second_id()
    }

    /// Philosopher `p` holds fork `f`.
    pub open spec fn holds(&self, p: int, f: usize) -> bool {
        ||| self.stage@[p] == Stage::HoldsFirst && self.first(p) == f
        ||| self.stage@[p] == Stage::Eating && (self.first(p) == f || self.second(p) == f)
    }

    /// The state is consistent: `holder` records exactly who holds what,
    /// and the log accounts for every fork held and every meal eaten.
    pub open spec fn wf(&self) -> bool {
        &&& self.holder@.len() == self.forks
        &&& self.stage@.len() == self.seats()
        &&& self.seats() <= usize::MAX
        &&& forall|p: int|
            0 <= p < self.seats() ==> (#[trigger] self.philosophers@[p]).first_id()
                <= self.philosophers@[p].second_id() < self.forks
        &&& forall|f: int|
            0 <= f < self.forks ==> (#[trigger] self.holder@[f] matches Some(q) ==> q
                < self.seats() && self.holds(q as int, f as usize))
        &&& forall|p: int|
            0 <= p < self.seats() ==> {
                &&& #[trigger] self.stage@[p] == Stage::HoldsFirst ==> self.holder@[self.first(
                    p,
                ) as int] == Some(p as usize)
                &&& self.stage@[p] == Stage::Eating ==> self.holder@[self.first(p) as int] == Some(
                    p as usize,
                ) && self.holder@[self.second(p) as int] == Some(p as usize)
            }
        &&& forall|f: usize|
            f < self.forks ==> #[trigger] picks(self.log@, f) == puts(self.log@, f) + if self.holder@[f as int] is Some {
                1nat
            } else {
                0nat
            }
        &&& forall|f: usize| f < self.forks ==> #[trigger] exclusive(self.log@, f)
        &&& forall|i: int|
            0 <= i < self.log@.len() ==> event_in_range(#[trigger] self.log@[i], self.forks, self.seats() as usize)
        &&& forall|p: usize|
            p < self.seats() ==> #[trigger] meals(self.log@, p) == if self.stage@[p as int] == Stage::Done {
                1nat
            } else {
                0nat
            }
        &&& self.ticks + remaining(self.stage@) <= self.seats()
        &&& forall|p: usize|
            p < self.seats() ==> #[trigger] picks_by(self.log@, p, self.philosophers@[p as int].first_id())
                == if self.stage@[p as int] == Stage::Hungry { 0nat } else { 1nat }
        &&& forall|p: usize|
            p < self.seats() && self.philosophers@[p as int].first_id() < self.philosophers@[p as int].second_id()
                ==> #[trigger] picks_by(self.log@, p, self.philosophers@[p as int].second_id())
                == if self.stage@[p as int] == Stage::Eating || self.stage@[p as int] == Stage::Done { 1nat } else { 0nat }
        &&& forall|p: usize|
            p < self.seats() ==> #[trigger] lower_first(self.log@, p, self.philosophers@[p as int].first_id(),
                self.philosophers@[p as int].second_id())
    }

    /// Between two steps nobody is eating, and a philosopher waiting with one
    /// fork waits for a different, higher one.
    pub open spec fn at_rest(&self) -> bool {
        forall|p: int|
            0 <= p < self.seats() ==> #[trigger] self.stage@[p] != Stage::Eating && (self.stage@[p]
                == Stage::HoldsFirst ==> self.first(p) < self.second(p))
    }

    /// After its turn to pick up, philosopher `p` is eating or done, or is
    /// stopped by a fork that somebody holds.
    pub open spec fn blocked_or_served(&self, p: int) -> bool {
        match self.stage@[p] {
            Stage::Hungry => self.holder@[self.first(p) as int] is Some,
            Stage::HoldsFirst => self.first(p) < self.second(p) && self.holder@[self.second(
                p,
            ) as int] is Some,
            _ => true,
        }
    }
}

/// At every consistent instant each fork has at most one holder: no two
/// philosophers hold the same fork.
pub proof fn lemma_mutual_exclusion(t: Table, p: int, q: int, f: usize)
    requires
        t.wf(),
        0 <= p < t.seats(),
        0 <= q < t.seats(),
        p != q,
        t.holds(p, f),
    ensures
        !t.holds(q, f),
{
    assert(t.holder@[t.first(p) as int] == Some(p as usize));
    if t.stage@[p] == Stage::Eating {
        assert(t.holder@[t.second(p) as int] == Some(p as usize));
    }
    if t.holds(q, f) {
        assert(t.holder@[t.first(q) as int] == Some(q as usize));
        if t.stage@[q] == Stage::Eating {
            assert(t.holder@[t.second(q) as int] == Some(q as usize));
        }
    }
}

proof fn lemma_none_held_from(t: Table, f: int)
    requires
        t.wf(),
        forall|p: int| 0 <= p < t.seats() ==> #[trigger] t.blocked_or_served(p),
        forall|p: int| 0 <= p < t.seats() ==> #[trigger] t.stage@[p] != Stage::Eating,
        0 <= f <= t.forks,
    ensures
        forall|g: int| f <= g < t.forks ==> #[trigger] t.holder@[g] is None,
    decreases t.forks - f,
{
    if f < t.forks {
        lemma_none_held_from(t, f + 1);
        if let Some(q) = t.holder@[f] {
            let q = q as int;
            assert(t.blocked_or_served(q));
            assert(t.stage@[q] != Stage::Eating);
            assert(t.holder@[t.second(q) as int] is Some);
        }
    }
}

/// Deadlock freedom: once every philosopher has had its turn to pick up
/// forks in ascending order, somebody eats as long as anybody is hungry.
/// A circular wait cannot form, because the holder of the highest held
/// fork never waits for a fork lower than the one it holds.
pub proof fn lemma_someone_eats(t: Table, p: int)
    requires
        t.wf(),
        forall|q: int| 0 <= q < t.seats() ==> #[trigger] t.blocked_or_served(q),
        0 <= p < t.seats(),
        t.stage@[p] != Stage::Done,
    ensures
        exists|q: int| 0 <= q < t.seats() && #[trigger] t.stage@[q] == Stage::Eating,
{
    if !exists|q: int| 0 <= q < t.seats() && #[trigger] t.stage@[q] == Stage::Eating {
        lemma_none_held_from(t, 0);
        assert(t.blocked_or_served(p));
        assert(t.first(p) < t.forks);
        assert(t.second(p) < t.forks);
    }
}

impl Table {
    /// The pick-up half of a step: in seat order, each hungry philosopher
    /// takes its first fork if it is free, and each philosopher holding its
    /// first fork takes the second if that is free.
    fn pick_up_forks(&mut self)
        requires
            old(self).wf(),
            old(self).at_rest(),
        ensures
            final(self).wf(),
            forall|p: int| 0 <= p < final(self).seats() ==> #[trigger] final(self).blocked_or_served(p),
            final(self).forks == old(self).forks,
            final(self).philosophers == old(self).philosophers,
            final(self).ticks == old(self).ticks,
            remaining(final(self).stage@) == remaining(old(self).stage@),
            forall|p: int|
                0 <= p < final(self).seats() ==> (#[trigger] final(self).stage@[p] == Stage::Done)
                    == (old(self).stage@[p] == Stage::Done),
            forall|f: usize|
                f < final(self).forks ==> #[trigger] picks(final(self).log@, f) == picks(old(self).log@, f)
                    + if final(self).holder@[f as int] is Some && old(self).holder@[f as int] is None {
                    1nat
                } else {
                    0nat
                },
            forall|f: int|
                0 <= f < final(self).forks ==> (#[trigger] old(self).holder@[f] is Some
                    ==> final(self).holder@[f] == old(self).holder@[f]),
    {
        let ghost start = *self;
        let n = self.philosophers.len();
        let mut i: usize = 0;
        while i < n
            invariant
                start.wf(),
                start.at_rest(),
                self.wf(),
                n == self.seats(),
                i <= n,
                self.forks == start.forks,
                self.philosophers == start.philosophers,
                self.ticks == start.ticks,
                remaining(self.stage@) == remaining(start.stage@),
                forall|q: int| i <= q < n ==> #[trigger] self.stage@[q] == start.stage@[q],
                forall|q: int| 0 <= q < i ==> #[trigger] self.blocked_or_served(q),
                forall|q: int|
                    0 <= q < n ==> (#[trigger] self.stage@[q] == Stage::Done) == (start.stage@[q]
                        == Stage::Done),
                forall|f: usize|
                    f < self.forks ==> #[trigger] picks(self.log@, f) == picks(start.log@, f)
                        + if self.holder@[f as int] is Some && start.holder@[f as int] is None {
                        1nat
                    } else {
                        0nat
                    },
                forall|f: int|
                    0 <= f < self.forks ==> (#[trigger] start.holder@[f] is Some ==> self.holder@[f]
                        == start.holder@[f]),
            decreases n - i,
        {
            let ghost at_turn = *self;
            self.take_turn(i);
            assert forall|q: int| 0 <= q <= i implies #[trigger] self.blocked_or_served(q) by {
                if q < i {
                    assert(at_turn.blocked_or_served(q));
                }
            }
            i = i + 1;
        }
    }
}

impl Table {
    /// Philosopher `i` takes its first fork if it is hungry and the fork is
    /// free, then its second fork if it holds the first and the second is
    /// free.
    fn take_turn(&mut self, i: usize)
        requires
            old(self).wf(),
            i < old(self).seats(),
            old(self).stage@[i as int] != Stage::Eating,
            old(self).stage@[i as int] == Stage::HoldsFirst ==> old(self).first(i as int) < old(self).second(i as int),
        ensures
            final(self).wf(),
            final(self).blocked_or_served(i as int),
            final(self).forks == old(self).forks,
            final(self).philosophers == old(self).philosophers,
            final(self).ticks == old(self).ticks,
            remaining(final(self).stage@) == remaining(old(self).stage@),
            forall|q: int| 0 <= q < final(self).seats() && q != i ==> #[trigger] final(self).stage@[q] == old(self).stage@[q],
            (final(self).stage@[i as int] == Stage::Done) == (old(self).stage@[i as int] == Stage::Done),
            forall|f: usize|
                f < final(self).forks ==> #[trigger] picks(final(self).log@, f) == picks(old(self).log@, f)
                    + if final(self).holder@[f as int] is Some && old(self).holder@[f as int] is None {
                    1nat
                } else {
                    0nat
                },
            forall|f: int|
                0 <= f < final(self).forks ==> (#[trigger] old(self).holder@[f] is Some
                    ==> final(self).holder@[f] == old(self).holder@[f]),
    {
        let (first, second) = self.philosophers[i].acquisition_order();
        let first = first.id;
        let second = second.id;
        assert(self.philosophers@[i as int].first_id() < self.forks);
        if self.stage[i] == Stage::Hungry && self.holder[first].is_none() {
            let ghost before = *self;
            let e = Event::PickedUp { philosopher: i, fork: first };
            proof {
                lemma_push(self.log@, e);
                lemma_remaining_update(self.stage@, i as int, Stage::HoldsFirst);
            }
            self.holder.set(first, Some(i));
            self.stage.set(i, Stage::HoldsFirst);
            self.log.push(e);
            assert forall|f: int| 0 <= f < self.forks implies (#[trigger] self.holder@[f] matches Some(
                q,
            ) ==> q < self.seats() && self.holds(q as int, f as usize)) by {
                if f != first as int {
                    assert(self.holder@[f] == before.holder@[f]);
                }
            }
        }
        if self.stage[i] == Stage::HoldsFirst {
            if first == second {
                let ghost before = *self;
                proof {
                    lemma_remaining_update(self.stage@, i as int, Stage::Eating);
                }
                self.stage.set(i, Stage::Eating);
                assert forall|f: int| 0 <= f < self.forks implies (#[trigger] self.holder@[f] matches Some(
                    q,
                ) ==> q < self.seats() && self.holds(q as int, f as usize)) by {
                    assert(self.holder@[f] == before.holder@[f]);
                }
            } else if self.holder[second].is_none() {
                let ghost before = *self;
                let e = Event::PickedUp { philosopher: i, fork: second };
                proof {
                    lemma_push(self.log@, e);
                    lemma_remaining_update(self.stage@, i as int, Stage::Eating);
                }
                self.holder.set(second, Some(i));
                self.stage.set(i, Stage::Eating);
                self.log.push(e);
                assert forall|f: int| 0 <= f < self.forks implies (#[trigger] self.holder@[f] matches Some(
                    q,
                ) ==> q < self.seats() && self.holds(q as int, f as usize)) by {
                    if f != second as int {
                        assert(self.holder@[f] == before.holder@[f]);
                    }
                }
            }
        }
    }

    /// The eating half of a step: every philosopher holding both forks eats
    /// for the step, then puts the forks down in reverse order of pick-up.
    fn eat_and_put_down(&mut self)
        requires
            old(self).wf(),
            forall|p: int|
                0 <= p < old(self).seats() ==> (#[trigger] old(self).stage@[p] == Stage::HoldsFirst
                    ==> old(self).first(p) < old(self).second(p)),
        ensures
            final(self).wf(),
            final(self).at_rest(),
            final(self).forks == old(self).forks,
            final(self).philosophers == old(self).philosophers,
            final(self).ticks == old(self).ticks,
            forall|p: int|
                0 <= p < final(self).seats() ==> #[trigger] final(self).stage@[p] == if old(self).stage@[p]
                    == Stage::Eating {
                    Stage::Done
                } else {
                    old(self).stage@[p]
                },
            remaining(final(self).stage@) <= remaining(old(self).stage@),
            (exists|p: int| 0 <= p < old(self).seats() && #[trigger] old(self).stage@[p] == Stage::Eating)
                ==> remaining(final(self).stage@) < remaining(old(self).stage@),
            final(self).forks == 1 ==> remaining(final(self).stage@) + 1 >= remaining(old(self).stage@),
            forall|f: usize| f < final(self).forks ==> #[trigger] picks(final(self).log@, f) == picks(old(self).log@, f),
    {
        let ghost start = *self;
        let ghost eaten: nat = 0;
        let n = self.philosophers.len();
        let mut i: usize = 0;
        while i < n
            invariant
                start.wf(),
                forall|p: int|
                    0 <= p < start.seats() ==> (#[trigger] start.stage@[p] == Stage::HoldsFirst
                        ==> start.first(p) < start.second(p)),
                self.wf(),
                n == self.seats(),
                i <= n,
                self.forks == start.forks,
                self.philosophers == start.philosophers,
                self.ticks == start.ticks,
                forall|q: int|
                    0 <= q < n ==> #[trigger] self.stage@[q] == if q < i && start.stage@[q]
                        == Stage::Eating {
                        Stage::Done
                    } else {
                        start.stage@[q]
                    },
                remaining(self.stage@) + eaten == remaining(start.stage@),
                eaten == 0 ==> forall|q: int| 0 <= q < i ==> #[trigger] start.stage@[q] != Stage::Eating,
                start.forks == 1 ==> eaten <= 1,
                start.forks == 1 && eaten == 1 ==> (start.holder@[0] matches Some(j) && j < i),
                forall|f: usize| f < self.forks ==> #[trigger] picks(self.log@, f) == picks(start.log@, f),
            decreases n - i,
        {
            if self.stage[i] == Stage::Eating {
                proof {
                    let first = self.first(i as int);
                    assert(self.philosophers@[i as int].first_id() < self.forks);
                    assert(self.holder@[first as int] == Some(i));
                    lemma_remaining_update(self.stage@, i as int, Stage::Done);
                    if start.forks == 1 {
                        assert(start.holder@[first as int] == Some(i));
                    }
                    eaten = eaten + 1;
                }
                self.serve_meal(i);
            }
            i = i + 1;
        }
        proof {
            if exists|p: int| 0 <= p < start.seats() && #[trigger] start.stage@[p] == Stage::Eating {
                let p = choose|p: int| 0 <= p < start.seats() && #[trigger] start.stage@[p] == Stage::Eating;
                if eaten == 0 {
                    assert(start.stage@[p] != Stage::Eating);
                }
            }
        }
    }

    /// Philosopher `i`, holding both forks, eats and puts them down: second
    /// fork first, then the first.
    fn serve_meal(&mut self, i: usize)
        requires
            old(self).wf(),
            i < old(self).seats(),
            old(self).stage@[i as int] == Stage::Eating,
        ensures
            final(self).wf(),
            final(self).forks == old(self).forks,
            final(self).philosophers == old(self).philosophers,
            final(self).ticks == old(self).ticks,
            final(self).stage@ == old(self).stage@.update(i as int, Stage::Done),
            forall|f: usize| f < final(self).forks ==> #[trigger] picks(final(self).log@, f) == picks(old(self).log@, f),
    {
        let ghost at_turn = *self;
        let (first, second) = self.philosophers[i].acquisition_order();
        let first = first.id;
        let second = second.id;
        assert(self.philosophers@[i as int].first_id() < self.forks);
        assert(self.holder@[first as int] == Some(i));
        assert(self.holder@[second as int] == Some(i));
        proof {
            lemma_remaining_update(self.stage@, i as int, Stage::Done);
        }
        self.holder.set(second, None);
        self.holder.set(first, None);
        self.stage.set(i, Stage::Done);
        let e1 = Event::Eating { philosopher: i };
        proof { lemma_push(self.log@, e1); }
        self.log.push(e1);
        let e2 = Event::Finished { philosopher: i };
        proof { lemma_push(self.log@, e2); }
        self.log.push(e2);
        if second != first {
            let e3 = Event::PutDown { philosopher: i, fork: second };
            proof { lemma_push(self.log@, e3); }
            self.log.push(e3);
        }
        let e4 = Event::PutDown { philosopher: i, fork: first };
        proof { lemma_push(self.log@, e4); }
        self.log.push(e4);
        assert forall|f: int| 0 <= f < self.forks implies (#[trigger] self.holder@[f] matches Some(
            q,
        ) ==> q < self.seats() && self.holds(q as int, f as usize)) by {
            if f != first as int && f != second as int {
                assert(self.holder@[f] == at_turn.holder@[f]);
                if let Some(q) = at_turn.holder@[f] {
                    assert(at_turn.holds(q as int, f as usize));
                }
            }
        }
    }

    /// One work step: everybody tries to pick up forks in ascending order,
    /// then those holding both eat and put them down. Somebody always eats,
    /// so a step with anybody hungry leaves fewer hungry; a fork serves at
    /// most one meal per step. With nobody hungry nothing changes.
    pub fn tick(&mut self)
        requires
            old(self).wf(),
            old(self).at_rest(),
        ensures
            final(self).wf(),
            final(self).at_rest(),
            final(self).forks == old(self).forks,
            final(self).philosophers == old(self).philosophers,
            remaining(old(self).stage@) == 0 ==> *final(self) == *old(self),
            remaining(old(self).stage@) > 0 ==> {
                &&& final(self).ticks == old(self).ticks + 1
                &&& remaining(final(self).stage@) < remaining(old(self).stage@)
                &&& final(self).forks == 1 ==> remaining(final(self).stage@) + 1 == remaining(old(self).stage@)
                &&& forall|f: usize| f < final(self).forks ==> #[trigger] picks(final(self).log@, f) <= picks(old(self).log@, f) + 1
            },
    {
        if !self.anyone_hungry() {
            return;
        }
        let ghost start = *self;
        self.pick_up_forks();
        proof {
            lemma_remaining_witness(start.stage@);
            let p = choose|p: int| 0 <= p < start.seats() && #[trigger] start.stage@[p] != Stage::Done;
            assert(self.stage@[p] != Stage::Done);
            lemma_someone_eats(*self, p);
            assert forall|q: int| 0 <= q < self.seats() && #[trigger] self.stage@[q] == Stage::HoldsFirst
                implies self.first(q) < self.second(q) by {
                assert(self.blocked_or_served(q));
            }
        }
        self.eat_and_put_down();
        self.ticks = self.ticks + 1;
    }
}

impl Table {
    /// A table with a fork pool of `pool.count` forks and one hungry
    /// philosopher per seat, holding nothing; `OutOfRange` for the first
    /// seat that names a fork outside the pool.
    pub fn new(pool: &ForkPool, seating: &Vec<Seat>) -> (r: Result<Table, SimError>)
        ensures
            match r {
                Ok(t) => {
                    &&& seated(pool.count, seating@, Ok(t.philosophers))
                    &&& t.wf()
                    &&& t.at_rest()
                    &&& t.forks == pool.count
                    &&& t.ticks == 0
                    &&& t.log@.len() == 0
                    &&& forall|p: int| 0 <= p < t.seats() ==> #[trigger] t.stage@[p] == Stage::Hungry
                    &&& forall|f: int| 0 <= f < t.forks ==> #[trigger] t.holder@[f] is None
                },
                Err(e) => seated(pool.count, seating@, Err(e)),
            },
    {
        let philosophers = match seat_philosophers(pool, seating) {
            Ok(v) => v,
            Err(e) => return Err(e),
        };
        let n = philosophers.len();
        let mut holder: Vec<Option<usize>> = Vec::new();
        let mut f: usize = 0;
        while f < pool.count
            invariant
                f <= pool.count,
                holder@.len() == f,
                forall|g: int| 0 <= g < f ==> #[trigger] holder@[g] is None,
            decreases pool.count - f,
        {
            holder.push(None);
            f = f + 1;
        }
        let mut stage: Vec<Stage> = Vec::new();
        let mut p: usize = 0;
        while p < n
            invariant
                p <= n,
                stage@.len() == p,
                forall|q: int| 0 <= q < p ==> #[trigger] stage@[q] == Stage::Hungry,
            decreases n - p,
        {
            stage.push(Stage::Hungry);
            p = p + 1;
        }
        proof {
            lemma_remaining_all(stage@);
        }
        let t = Table { forks: pool.count, philosophers, holder, stage, log: Vec::new(), ticks: 0 };
        assert forall|p: int| 0 <= p < t.seats() implies (#[trigger] t.philosophers@[p]).first_id()
            <= t.philosophers@[p].second_id() < t.forks by {
            assert(seat_in_range(seating@[p], pool.count));
            assert(t.philosophers@[p].left_fork.id == seating@[p].1);
        }
        Ok(t)
    }

    fn anyone_hungry(&self) -> (r: bool)
        requires
            self.stage@.len() == self.seats(),
        ensures
            r == (remaining(self.stage@) > 0),
    {
        let mut i: usize = 0;
        while i < self.stage.len()
            invariant
                i <= self.stage@.len(),
                forall|q: int| 0 <= q < i ==> #[trigger] self.stage@[q] == Stage::Done,
            decreases self.stage@.len() - i,
        {
            if self.stage[i] != Stage::Done {
                proof {
                    lemma_remaining_positive(self.stage@, i as int);
                }
                return true;
            }
            i = i + 1;
        }
        proof {
            if remaining(self.stage@) > 0 {
                lemma_remaining_witness(self.stage@);
            }
        }
        false
    }

    /// Runs steps until every philosopher has eaten once, and reports the
    /// steps taken and the events in order.
    pub fn run(self) -> (r: Report)
        requires
            self.wf(),
            self.at_rest(),
        ensures
            sound_log(r.log@, self.forks),
            forall|p: usize| p < self.seats() ==> #[trigger] meals(r.log@, p) == 1,
            forall|p: usize|
                p < self.seats() ==> {
                    &&& #[trigger] lower_first(r.log@, p, self.first(p as int), self.second(p as int))
                    &&& picks_by(r.log@, p, self.first(p as int)) == 1
                    &&& picks_by(r.log@, p, self.second(p as int)) == 1
                },
            self.ticks <= r.ticks <= self.ticks + remaining(self.stage@),
            r.ticks <= self.seats(),
            self.forks == 1 ==> r.ticks == self.ticks + remaining(self.stage@),
            r.ticks == self.ticks ==> r.log@ == self.log@,
            forall|f: usize| f < self.forks ==> #[trigger] picks(r.log@, f) <= picks(self.log@, f) + (r.ticks - self.ticks),
    {
        let ghost start = self;
        let mut t = self;
        while t.anyone_hungry()
            invariant
                t.wf(),
                t.at_rest(),
                t.forks == start.forks,
                t.philosophers == start.philosophers,
                start.ticks <= t.ticks,
                t.ticks + remaining(t.stage@) <= start.ticks + remaining(start.stage@),
                start.forks == 1 ==> t.ticks + remaining(t.stage@) == start.ticks + remaining(start.stage@),
                t.ticks == start.ticks ==> t.log@ == start.log@,
                forall|f: usize| f < t.forks ==> #[trigger] picks(t.log@, f) <= picks(start.log@, f) + (t.ticks - start.ticks),
            decreases remaining(t.stage@),
        {
            t.tick();
        }
        proof {
            lemma_remaining_zero(t.stage@);
            assert forall|f: usize| f < t.forks implies #[trigger] picks(t.log@, f) == puts(t.log@, f) by {
                if let Some(q) = t.holder@[f as int] {
                    assert(t.holds(q as int, f));
                    assert(t.stage@[q as int] == Stage::Done);
                }
            }
            assert forall|p: usize| p < t.seats() implies #[trigger] meals(t.log@, p) == 1 by {
                assert(t.stage@[p as int] == Stage::Done);
            }
            assert forall|p: usize| p < t.seats() implies {
                &&& #[trigger] lower_first(t.log@, p, start.first(p as int), start.second(p as int))
                &&& picks_by(t.log@, p, start.first(p as int)) == 1
                &&& picks_by(t.log@, p, start.second(p as int)) == 1
            } by {
                assert(t.stage@[p as int] == Stage::Done);
                assert(t.philosophers@[p as int] == start.philosophers@[p as int]);
                assert(picks_by(t.log@, p, t.philosophers@[p as int].first_id()) == 1);
                if t.philosophers@[p as int].first_id() < t.philosophers@[p as int].second_id() {
                    assert(picks_by(t.log@, p, t.philosophers@[p as int].second_id()) == 1);
                }
                assert(lower_first(t.log@, p, t.philosophers@[p as int].first_id(), t.philosophers@[p as int].second_id()));
            }
            assert forall|i: int| 0 <= i < t.log@.len() implies match #[trigger] t.log@[i] {
                Event::PickedUp { fork, .. } => fork < t.forks,
                Event::PutDown { fork, .. } => fork < t.forks,
                _ => true,
            } by {
                assert(event_in_range(t.log@[i], t.forks, t.seats() as usize));
            }
        }
        Report { ticks: t.ticks, log: t.log }
    }
}

/// Seats the philosophers of `seating` at a table of `forks` forks and runs
/// the simulation until each has eaten once.
///
/// Every seat must name forks of the pool: otherwise nothing runs, and the
/// first seat that names a missing fork is reported as `OutOfRange`.
/// On success the log names only forks of the pool, holds each fork by one
/// philosopher at a time, puts down every fork it picked up, and holds one
/// meal per philosopher; each fork serves at most one meal per step, so a
/// single fork serializes all philosophers; the run never takes more steps
/// than there are philosophers, and none at all when there are none.
pub fn simulate(forks: usize, seating: &Vec<Seat>) -> (r: Result<Report, SimError>)
    ensures
        r.is_ok() == seating_in_range(seating@, forks),
        r matches Err(e) ==> seated(forks, seating@, Err(e)),
        r matches Ok(rep) ==> {
            &&& sound_log(rep.log@, forks)
            &&& forall|p: usize| p < seating@.len() ==> #[trigger] meals(rep.log@, p) == 1
            &&& forall|p: usize|
                p < seating@.len() ==> {
                    &&& #[trigger] lower_first(rep.log@, p, lower_id(seating@[p as int].1, seating@[p as int].2),
                        upper_id(seating@[p as int].1, seating@[p as int].2))
                    &&& picks_by(rep.log@, p, lower_id(seating@[p as int].1, seating@[p as int].2)) == 1
                    &&& picks_by(rep.log@, p, upper_id(seating@[p as int].1, seating@[p as int].2)) == 1
                }
            &&& rep.ticks <= seating@.len()
            &&& seating@.len() > 0 ==> rep.ticks > 0
            &&& forks == 1 ==> rep.ticks == seating@.len()
            &&& seating@.len() == 0 ==> rep.log@.len() == 0
            &&& forall|f: usize| f < forks ==> #[trigger] picks(rep.log@, f) <= rep.ticks
        },
{
    let pool = ForkPool::create(forks);
    match Table::new(&pool, seating) {
        Ok(t) => {
            proof {
                lemma_remaining_all(t.stage@);
            }
            let rep = t.run();
            proof {
                assert forall|p: usize| p < seating@.len() implies {
                    &&& #[trigger] lower_first(rep.log@, p, lower_id(seating@[p as int].1, seating@[p as int].2),
                        upper_id(seating@[p as int].1, seating@[p as int].2))
                    &&& picks_by(rep.log@, p, lower_id(seating@[p as int].1, seating@[p as int].2)) == 1
                    &&& picks_by(rep.log@, p, upper_id(seating@[p as int].1, seating@[p as int].2)) == 1
                } by {
                    assert(t.philosophers@[p as int].left_fork.id == seating@[p as int].1);
                    assert(t.philosophers@[p as int].right_fork.id == seating@[p as int].2);
                    assert(lower_first(rep.log@, p, t.first(p as int), t.second(p as int)));
                }
                if seating@.len() > 0 {
                    assert(meals(rep.log@, 0) == 1);
                    if rep.ticks == 0 {
                        assert(meals(t.log@, 0) == 0);
                    }
                }
            }
            Ok(rep)
        },
        Err(e) => Err(e),
    }
}

} // verus!
