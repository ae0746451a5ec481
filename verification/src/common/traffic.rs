//! What is outstanding per transaction ID.

use crate::collections::{front_of, queue_of, queued, unqueued, Queues, Table};
use vstd::prelude::*;

verus! {

/// The entry of `key` in a table of counts; zero where there is none.
pub open spec fn count_of(m: Map<u64, u64>, key: u64) -> u64 {
    if m.contains_key(key) {
        m[key]
    } else {
        0
    }
}

/// The transactions of one direction, per ID in the order they were
/// announced.
#[verifier::ext_equal]
pub ghost struct TrafficView {
    /// The beats announced, for each transaction whose data is outstanding.
    pub expect: Map<u64, Seq<u64>>,
    /// The beats seen since the last one that ended a transaction.
    pub count: Map<u64, u64>,
    /// The cycle of the announcement, for each transaction that is not
    /// answered.
    pub cycles: Map<u64, Seq<u64>>,
    /// Whether the transaction is exclusive, for each that is not answered.
    pub excl: Map<u64, Seq<bool>>,
}

impl TrafficView {
    /// Nothing outstanding.
    pub open spec fn none() -> TrafficView {
        TrafficView {
            expect: Map::empty(),
            count: Map::empty(),
            cycles: Map::empty(),
            excl: Map::empty(),
        }
    }

    /// After a transaction was announced.
    pub open spec fn announced(self, id: u64, beats: u64, now: u64, excl: bool) -> TrafficView {
        TrafficView {
            expect: queued(self.expect, id, beats),
            count: self.count,
            cycles: queued(self.cycles, id, now),
            excl: queued(self.excl, id, excl),
        }
    }

    /// After a beat; `last` ends the oldest transaction of its ID.
    pub open spec fn beat(self, id: u64, last: bool) -> TrafficView {
        TrafficView {
            expect: if last {
                unqueued(self.expect, id)
            } else {
                self.expect
            },
            count: self.count.insert(
                id,
                if last {
                    0
                } else {
                    (count_of(self.count, id) + 1) as u64
                },
            ),
            ..self
        }
    }

    /// After the oldest transaction of an ID was answered.
    pub open spec fn answered(self, id: u64) -> TrafficView {
        TrafficView {
            cycles: unqueued(self.cycles, id),
            excl: unqueued(self.excl, id),
            ..self
        }
    }

    /// Whether the oldest unanswered transaction of an ID is exclusive.
    pub open spec fn exclusive(self, id: u64) -> bool {
        front_of(self.excl, id) == Some(true)
    }
}

/// The transactions of one direction.
pub struct Traffic {
    expect: Queues<u64>,
    count: Table<u64>,
    cycles: Queues<u64>,
    excl: Queues<bool>,
}

impl View for Traffic {
    type V = TrafficView;

    closed spec fn view(&self) -> TrafficView {
        TrafficView {
            expect: self.expect@,
            count: self.count@,
            cycles: self.cycles@,
            excl: self.excl@,
        }
    }
}

impl Traffic {
    /// Nothing outstanding.
    pub fn new() -> (r: Traffic)
        ensures
            r@ == TrafficView::none(),
    {
        Traffic {
            expect: Queues::new(),
            count: Table::new(),
            cycles: Queues::new(),
            excl: Queues::new(),
        }
    }

    /// Forgets everything.
    pub fn clear(&mut self)
        ensures
            final(self)@ == TrafficView::none(),
    {
        self.expect.clear();
        self.count.clear();
        self.cycles.clear();
        self.excl.clear();
    }

    /// Whether no data of `id` is outstanding.
    pub fn is_idle(&self, id: u64) -> (r: bool)
        ensures
            r == (queue_of(self@.expect, id).len() == 0),
    {
        self.expect.is_empty(id)
    }

    /// The beats of `id` since the last one that ended a transaction.
    pub fn count(&self, id: u64) -> (r: u64)
        ensures
            r == count_of(self@.count, id),
    {
        match self.count.get(id) {
            Some(n) => *n,
            None => 0,
        }
    }

    /// When the oldest unanswered transaction of `id` was announced.
    pub fn started(&self, id: u64) -> (r: Option<u64>)
        ensures
            r == front_of(self@.cycles, id),
    {
        match self.cycles.front(id) {
            Some(c) => Some(*c),
            None => None,
        }
    }

    /// Whether the oldest unanswered transaction of `id` is exclusive.
    pub fn is_exclusive(&self, id: u64) -> (r: Option<bool>)
        ensures
            r == front_of(self@.excl, id),
    {
        match self.excl.front(id) {
            Some(e) => Some(*e),
            None => None,
        }
    }

    /// Notes an announced transaction.
    pub fn announce(&mut self, id: u64, beats: u64, now: u64, excl: bool)
        ensures
            final(self)@ == old(self)@.announced(id, beats, now, excl),
    {
        self.expect.push(id, beats);
        self.cycles.push(id, now);
        self.excl.push(id, excl);
    }

    /// Notes a beat. For a last one, the result is the number of beats that
    /// its transaction was announced with.
    pub fn note_beat(&mut self, id: u64, last: bool) -> (r: Option<u64>)
        requires
            count_of(old(self)@.count, id) < u64::MAX,
        ensures
            final(self)@ == old(self)@.beat(id, last),
            r == (if last {
                front_of(old(self)@.expect, id)
            } else {
                None
            }),
    {
        let n: u64 = self.count(id) + 1;
        if last {
            let _ = self.count.insert(id, 0);
            self.expect.pop(id)
        } else {
            let _ = self.count.insert(id, n);
            None
        }
    }

    /// Notes an answer. The result is when its transaction was announced and
    /// whether it is exclusive.
    pub fn answer(&mut self, id: u64) -> (r: (Option<u64>, bool))
        ensures
            final(self)@ == old(self)@.answered(id),
            r.0 == front_of(old(self)@.cycles, id),
            r.1 == old(self)@.exclusive(id),
    {
        let start = self.cycles.pop(id);
        let excl = self.excl.pop(id);
        (
            start,
            match excl {
                Some(e) => e,
                None => false,
            },
        )
    }
}

/// What concerns one ID: the beats announced and the beats seen.
pub open spec fn of_id(t: TrafficView, id: u64) -> (Seq<u64>, u64) {
    (queue_of(t.expect, id), count_of(t.count, id))
}

/// Data of different IDs may interleave: a beat changes nothing about another
/// ID, and what it does to its own depends on that ID alone.
pub proof fn lemma_ids_interleave(t: TrafficView, u: TrafficView, id: u64, other: u64, last: bool)
    requires
        id != other,
    ensures
        of_id(t.beat(id, last), other) == of_id(t, other),
        of_id(t, id) == of_id(u, id) ==> of_id(t.beat(id, last), id) == of_id(
            u.beat(id, last),
            id,
        ),
{
}

/// A run of beats of one ID.
pub open spec fn beats(t: TrafficView, id: u64, n: nat) -> TrafficView
    decreases n,
{
    if n == 0 {
        t
    } else {
        beats(t, id, (n - 1) as nat).beat(id, false)
    }
}

/// A transaction whose data has as many beats as announced ends with the
/// count that was announced: what a checker compares at the last beat is
/// equal.
pub proof fn lemma_full_data_matches(t: TrafficView, id: u64, n: nat)
    requires
        queue_of(t.expect, id).len() > 0,
        count_of(t.count, id) == 0,
        n + 1 == queue_of(t.expect, id)[0],
    ensures
        ({
            let before_last = beats(t, id, n);
            &&& front_of(before_last.expect, id) == Some((count_of(before_last.count, id) + 1) as u64)
            &&& count_of(before_last.beat(id, true).count, id) == 0
            &&& queue_of(before_last.beat(id, true).expect, id) == queue_of(
                t.expect,
                id,
            ).drop_first()
        }),
{
    lemma_beats_count(t, id, n);
}

proof fn lemma_beats_count(t: TrafficView, id: u64, n: nat)
    requires
        count_of(t.count, id) == 0,
        n < u64::MAX,
    ensures
        count_of(beats(t, id, n).count, id) == n,
        beats(t, id, n).expect == t.expect,
    decreases n,
{
    if n > 0 {
        lemma_beats_count(t, id, (n - 1) as nat);
    }
}

/// Answers may come out of order across IDs: an answer to one ID leaves what is
/// outstanding of every other, and within an ID the oldest is answered first.
pub proof fn lemma_answers_come_in_any_order(t: TrafficView, id: u64, other: u64)
    ensures
        other != id ==> queue_of(t.answered(id).cycles, other) == queue_of(t.cycles, other)
            && queue_of(t.answered(id).excl, other) == queue_of(t.excl, other),
        queue_of(t.cycles, id).len() > 0 ==> queue_of(t.answered(id).cycles, id) == queue_of(
            t.cycles,
            id,
        ).drop_first(),
        other != id ==> t.answered(id).answered(other) == t.answered(other).answered(id),
{
    if other != id {
        assert(t.answered(id).answered(other) =~= t.answered(other).answered(id));
    }
}

} // verus!
