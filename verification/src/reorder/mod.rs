//! Restoring the order of packets on reception.
//!
//! Packets are spread over ten holes, so they arrive out of order, and TCP takes that for loss.
//! The sender numbers TCP packets inside a flow bucket; by bucket and number the order is
//! restored here. A missing packet is waited for no longer than the current wait, then what has
//! gathered is handed on (a packet that is late is handed on as it comes). Packets without a
//! number pass at once.
//!
//! Time comes from outside, as nanoseconds of any steady clock; there are no timers here.

pub mod accounts;
pub mod calls;
pub mod lateness;
pub mod laws;
pub mod percentile;
pub mod ring;
pub mod run;
pub mod session;
pub mod steps;

use crate::multilink::Incoming;
use crate::reorder::lateness::{TunerModel, WaitTuner, MILLI};
use crate::reorder::session::{
    lemma_expired, lemma_pushed, lemma_shorter_wait, numbering, numbering_of, Outcome, Session,
    SessionKey, SessionModel, MAX_GAP,
};
use vstd::prelude::*;

verus! {

/// How many sessions are followed at a time.
pub const MAX_SESSIONS: usize = 16;

/// Counters of the order buffer.
#[derive(Clone, Copy, Debug, PartialEq, Eq, Structural)]
pub struct ReorderStats {
    /// Packets without a number, passed at once.
    pub passthrough: u64,
    /// Came in order, passed at once.
    pub in_order: u64,
    /// Held back and handed on in order when the missing one came.
    pub reordered: u64,
    /// Held back and handed on because the missing one did not come in time.
    pub timed_out: u64,
    /// Came after their place had been given up, handed on at once.
    pub late: u64,
    /// Handed on early because of a jump of the counter.
    pub forced: u64,
    /// Most packets held at the same time in one session.
    pub max_held: usize,
    /// The current wait for a missing packet, in milliseconds.
    pub wait_ms: u64,
}

impl Default for ReorderStats {
    fn default() -> (stats: Self)
        ensures
            stats == (ReorderStats {
                passthrough: 0,
                in_order: 0,
                reordered: 0,
                timed_out: 0,
                late: 0,
                forced: 0,
                max_held: 0,
                wait_ms: 0,
            }),
    {
        ReorderStats {
            passthrough: 0,
            in_order: 0,
            reordered: 0,
            timed_out: 0,
            late: 0,
            forced: 0,
            max_held: 0,
            wait_ms: 0,
        }
    }
}

/// `a - b`, but not below zero.
pub open spec fn elapsed(now: u64, since: u64) -> u64 {
    if now >= since {
        (now - since) as u64
    } else {
        0
    }
}

#[verifier::ext_equal]
pub struct ReorderModel {
    pub tuner: TunerModel,
    pub sessions: Map<SessionKey, SessionModel>,
    pub stats: ReorderStats,
}

impl ReorderModel {
    /// The buffer at its start.
    pub open spec fn initial(tuner: TunerModel) -> Self {
        ReorderModel {
            tuner,
            sessions: Map::empty(),
            stats: ReorderStats {
                passthrough: 0,
                in_order: 0,
                reordered: 0,
                timed_out: 0,
                late: 0,
                forced: 0,
                max_held: 0,
                wait_ms: tuner.wait / MILLI,
            },
        }
    }

    pub open spec fn wf(self) -> bool {
        &&& self.tuner.wf()
        &&& self.sessions.dom().finite()
        &&& self.sessions.dom().len() <= MAX_SESSIONS
        &&& forall|k: SessionKey| #[trigger]
            self.sessions.contains_key(k) ==> self.sessions[k].wf(k, self.tuner.limit())
        &&& self.stats.wait_ms == self.tuner.wait / MILLI
        &&& self.stats.max_held <= MAX_GAP
    }

    /// What holds of the buffer at any time: the sessions are in order, and not too many; the
    /// statistics show the wait, and never more held packets than a session can hold.
    pub open spec fn sound(self) -> bool {
        &&& self.sessions.dom().finite()
        &&& self.sessions.dom().len() <= MAX_SESSIONS
        &&& forall|k: SessionKey| #[trigger]
            self.sessions.contains_key(k) ==> self.sessions[k].wf(k, 0)
        &&& self.stats.wait_ms == self.tuner.wait / MILLI
        &&& self.stats.max_held <= MAX_GAP
    }

    /// After the lateness of a packet whose gap was noticed at `noticed` was measured.
    pub open spec fn measured(self, noticed: Option<u64>, now: u64) -> Self {
        match noticed {
            Some(t) => {
                let tuner = self.tuner.recorded(elapsed(now, t));
                ReorderModel {
                    tuner,
                    stats: ReorderStats { wait_ms: tuner.wait / MILLI, ..self.stats },
                    ..self
                }
            },
            None => self,
        }
    }

    /// `victim` is a session that was silent for the longest time.
    pub open spec fn most_silent(self, victim: SessionKey) -> bool {
        &&& self.sessions.contains_key(victim)
        &&& forall|k: SessionKey| #[trigger]
            self.sessions.contains_key(k) ==> self.sessions[victim].last_seen
                <= self.sessions[k].last_seen
    }

    /// Room is made for session `key`: where it is new and the buffer follows as many sessions
    /// as it can, one that was silent for the longest time is dropped.
    pub open spec fn room_made(self, key: SessionKey, after: Self) -> bool {
        if self.sessions.dom().len() >= MAX_SESSIONS && !self.sessions.contains_key(key) {
            exists|victim: SessionKey|
                #![trigger self.most_silent(victim)]
                self.most_silent(victim) && after == (ReorderModel {
                    sessions: self.sessions.remove(victim),
                    ..self
                })
        } else {
            after == self
        }
    }

    /// The session `key`, a fresh one if it is not followed yet.
    pub open spec fn session(self, key: SessionKey, counter: u64, now: u64) -> SessionModel {
        if self.sessions.contains_key(key) {
            self.sessions[key]
        } else {
            SessionModel::fresh(counter, now)
        }
    }

    /// After a packet of session `key` was taken in, once there is room for the session.
    pub open spec fn pushed(self, key: SessionKey, counter: u64, packet: Incoming, now: u64) -> (
        Self,
        Seq<Incoming>,
    ) {
        let (session, released, outcome) = self.session(key, counter, now).pushed(counter, packet, now);
        let stored = ReorderModel { sessions: self.sessions.insert(key, session), ..self };
        let after = match outcome {
            Outcome::Late(noticed) => ReorderModel {
                stats: ReorderStats { late: self.stats.late.wrapping_add(1), ..self.stats },
                ..stored
            }.measured(noticed, now),
            Outcome::InOrder(noticed, count) => ReorderModel {
                stats: ReorderStats {
                    in_order: self.stats.in_order.wrapping_add(1),
                    reordered: self.stats.reordered.wrapping_add(count as u64),
                    ..self.stats
                },
                ..stored
            }.measured(noticed, now),
            Outcome::Jumped(count) => ReorderModel {
                stats: ReorderStats { forced: self.stats.forced.wrapping_add(count as u64), ..self.stats },
                ..stored
            },
            Outcome::Held(count) => ReorderModel {
                stats: ReorderStats {
                    max_held: if self.stats.max_held >= count {
                        self.stats.max_held
                    } else {
                        count
                    },
                    ..self.stats
                },
                ..stored
            },
        };
        (after, released)
    }

    /// What the sessions of `order`, one after another, hand out at `now`.
    pub open spec fn given_up(self, order: Seq<SessionKey>, now: u64) -> Seq<Incoming>
        decreases order.len(),
    {
        if order.len() == 0 {
            Seq::empty()
        } else {
            self.given_up(order.drop_last(), now) + self.sessions[order.last()].expired(
                self.tuner.wait,
                now,
            ).1
        }
    }

    /// The moment at which the first wait for a missing packet is over; nothing, where none is
    /// waited for.
    pub open spec fn is_due_first(self, deadline: Option<u64>) -> bool {
        &&& deadline is None <==> forall|k: SessionKey| #[trigger]
            self.sessions.contains_key(k) ==> self.sessions[k].oldest is None
        &&& deadline matches Some(t) ==> {
            &&& exists|k: SessionKey| #[trigger]
                self.sessions.contains_key(k) && self.sessions[k].oldest is Some && t
                    == self.sessions[k].oldest->0 + self.tuner.wait
            &&& forall|k: SessionKey| #[trigger]
                self.sessions.contains_key(k) ==> (self.sessions[k].oldest matches Some(o) ==> t <= o
                    + self.tuner.wait)
        }
    }

    /// A packet is taken in at `now`, and `out` is handed out: a packet without a number at once
    /// and alone, a numbered one by its session, for which room is made.
    pub open spec fn pushes(
        self,
        packet: Incoming,
        now: u64,
        after: Self,
        out: Seq<Incoming>,
    ) -> bool {
        match numbering(packet) {
            None => {
                &&& out == seq![packet]
                &&& after == ReorderModel {
                    stats: ReorderStats {
                        passthrough: self.stats.passthrough.wrapping_add(1),
                        ..self.stats
                    },
                    ..self
                }
            },
            Some((key, counter)) => exists|room: ReorderModel|
                #![trigger self.room_made(key, room)]
                {
                    &&& self.room_made(key, room)
                    &&& after == room.pushed(key, counter, packet, now).0
                    &&& out == room.pushed(key, counter, packet, now).1
                },
        }
    }

    /// The gaps whose wait is over at `now` are given up, and `out` is handed out: what each
    /// session hands out, the sessions in some order.
    pub open spec fn expires(self, now: u64, after: Self, out: Seq<Incoming>) -> bool {
        &&& after.tuner == self.tuner
        &&& after.sessions.dom() == self.sessions.dom()
        &&& forall|k: SessionKey| #[trigger]
            self.sessions.contains_key(k) ==> after.sessions[k] == self.sessions[k].expired(
                self.tuner.wait,
                now,
            ).0
        &&& exists|order: Seq<SessionKey>| #![trigger self.given_up(order, now)]
            {
                &&& order.no_duplicates()
                &&& order.to_set() == self.sessions.dom()
                &&& out == self.given_up(order, now)
            }
        &&& after.stats == ReorderStats {
            timed_out: self.stats.timed_out.wrapping_add(out.len() as u64),
            ..self.stats
        }
    }
}

/// The order buffer.
pub struct Resequencer {
    tuner: WaitTuner,
    sessions: Vec<Session>,
    stats: ReorderStats,
}

/// Session `key` is among `sessions`.
spec fn has_key(sessions: Seq<Session>, key: SessionKey) -> bool {
    exists|i: int| 0 <= i < sessions.len() && (#[trigger] sessions[i]).spec_key() == key
}

spec fn position(sessions: Seq<Session>, key: SessionKey) -> int {
    choose|i: int| 0 <= i < sessions.len() && (#[trigger] sessions[i]).spec_key() == key
}

/// The sessions by key.
spec fn by_key(sessions: Seq<Session>) -> Map<SessionKey, SessionModel> {
    Map::new(|k: SessionKey| has_key(sessions, k), |k: SessionKey| sessions[position(sessions, k)]@)
}

/// No key occurs twice.
spec fn distinct(sessions: Seq<Session>) -> bool {
    forall|i: int, j: int|
        0 <= i < j < sessions.len() ==> (#[trigger] sessions[i]).spec_key() != (#[trigger] sessions[j]).spec_key()
}

proof fn lemma_at(sessions: Seq<Session>, i: int)
    requires
        distinct(sessions),
        0 <= i < sessions.len(),
    ensures
        by_key(sessions).contains_key(sessions[i].spec_key()),
        by_key(sessions)[sessions[i].spec_key()] == sessions[i]@,
{
    let k = sessions[i].spec_key();
    assert(has_key(sessions, k));
    let j = position(sessions, k);
    assert(0 <= j < sessions.len() && sessions[j].spec_key() == k);
}

proof fn lemma_update(sessions: Seq<Session>, i: int, s: Session)
    requires
        distinct(sessions),
        0 <= i < sessions.len(),
        s.spec_key() == sessions[i].spec_key(),
    ensures
        distinct(sessions.update(i, s)),
        by_key(sessions.update(i, s)) == by_key(sessions).insert(s.spec_key(), s@),
{
    let after = sessions.update(i, s);
    let m = by_key(sessions).insert(s.spec_key(), s@);
    assert(distinct(after));
    assert forall|k: SessionKey| by_key(after).contains_key(k) <==> m.contains_key(k) by {
        if has_key(after, k) {
            let j = position(after, k);
            assert(sessions[j].spec_key() == k);
        }
        if has_key(sessions, k) {
            let j = position(sessions, k);
            assert(after[j].spec_key() == k);
        }
        assert(after[i].spec_key() == s.spec_key());
    }
    assert forall|k: SessionKey| by_key(after).contains_key(k) implies by_key(after)[k] == m[k] by {
        let j = position(after, k);
        lemma_at(after, j);
        lemma_at(sessions, j);
    }
    assert(by_key(after) =~= m);
}

proof fn lemma_push(sessions: Seq<Session>, s: Session)
    requires
        distinct(sessions),
        !by_key(sessions).contains_key(s.spec_key()),
    ensures
        distinct(sessions.push(s)),
        by_key(sessions.push(s)) == by_key(sessions).insert(s.spec_key(), s@),
{
    let after = sessions.push(s);
    let m = by_key(sessions).insert(s.spec_key(), s@);
    assert forall|i: int, j: int| 0 <= i < j < after.len() implies (#[trigger] after[i]).spec_key() != (
    #[trigger] after[j]).spec_key() by {
        if j == sessions.len() {
            assert(sessions[i].spec_key() != s.spec_key()) by {
                lemma_at(sessions, i);
            }
        }
    }
    assert forall|k: SessionKey| by_key(after).contains_key(k) <==> m.contains_key(k) by {
        if has_key(after, k) {
            let j = position(after, k);
            assert(after[j].spec_key() == k);
            if j < sessions.len() {
                assert(sessions[j].spec_key() == k);
            }
        }
        if has_key(sessions, k) {
            let j = position(sessions, k);
            assert(after[j].spec_key() == k);
        }
        assert(after[sessions.len() as int].spec_key() == s.spec_key());
    }
    assert forall|k: SessionKey| by_key(after).contains_key(k) implies by_key(after)[k] == m[k] by {
        let j = position(after, k);
        lemma_at(after, j);
        if j < sessions.len() {
            lemma_at(sessions, j);
        }
    }
    assert(by_key(after) =~= m);
}

proof fn lemma_remove(sessions: Seq<Session>, i: int)
    requires
        distinct(sessions),
        0 <= i < sessions.len(),
    ensures
        distinct(sessions.remove(i)),
        by_key(sessions.remove(i)) == by_key(sessions).remove(sessions[i].spec_key()),
{
    let after = sessions.remove(i);
    let m = by_key(sessions).remove(sessions[i].spec_key());
    assert forall|a: int| 0 <= a < after.len() implies #[trigger] after[a] == sessions[if a < i {
        a
    } else {
        a + 1
    }] by {}
    assert(distinct(after));
    assert forall|k: SessionKey| by_key(after).contains_key(k) <==> m.contains_key(k) by {
        if has_key(after, k) {
            let j = position(after, k);
            let b = if j < i { j } else { j + 1 };
            assert(sessions[b].spec_key() == k);
        }
        if has_key(sessions, k) && k != sessions[i].spec_key() {
            let j = position(sessions, k);
            let b = if j < i { j } else { j - 1 };
            assert(after[b].spec_key() == k);
        }
    }
    assert forall|k: SessionKey| by_key(after).contains_key(k) implies by_key(after)[k] == m[k] by {
        let j = position(after, k);
        lemma_at(after, j);
        lemma_at(sessions, if j < i { j } else { j + 1 });
    }
    assert(by_key(after) =~= m);
}

impl View for Resequencer {
    type V = ReorderModel;

    closed spec fn view(&self) -> ReorderModel {
        ReorderModel { tuner: self.tuner@, sessions: by_key(self.sessions@), stats: self.stats }
    }
}

impl Resequencer {
    pub closed spec fn wf(&self) -> bool {
        &&& self@.wf()
        &&& distinct(self.sessions@)
        &&& self@.sessions.dom().len() == self.sessions@.len()
        &&& forall|i: int| 0 <= i < self.sessions@.len() ==> (#[trigger] self.sessions@[i]).ring_wf()
    }

    /// What the invariant says of the model.
    pub proof fn lemma_model(&self)
        requires
            self.wf(),
        ensures
            self@.wf(),
            self@.sound(),
    {
    }

    fn with_tuner(tuner: WaitTuner) -> (r: Self)
        requires
            tuner@.wf(),
        ensures
            r.wf(),
            r@ == ReorderModel::initial(tuner@),
    {
        let mut stats = ReorderStats::default();
        stats.wait_ms = tuner.wait() / MILLI;
        let r = Self { tuner, sessions: Vec::new(), stats };
        assert(r@ =~= ReorderModel::initial(tuner@)) by {
            assert(by_key(r.sessions@) =~= Map::<SessionKey, SessionModel>::empty());
        }
        r
    }

    /// A fixed wait.
    pub fn new(wait: u64) -> (r: Self)
        ensures
            r.wf(),
            r@ == ReorderModel::initial(TunerModel::fixed(wait)),
    {
        Self::with_tuner(WaitTuner::fixed(wait))
    }

    /// A wait that starts with `initial` and follows the measured lateness: the 99th percentile
    /// of the last samples with a quarter on top, within bounds.
    pub fn adaptive(initial: u64) -> (r: Self)
        ensures
            r.wf(),
            r@ == ReorderModel::initial(TunerModel::started(initial)),
    {
        Self::with_tuner(WaitTuner::adaptive(initial))
    }

    /// The current wait for a missing packet.
    pub fn wait(&self) -> (wait: u64)
        ensures
            wait == self@.tuner.wait,
    {
        self.tuner.wait()
    }

    pub fn stats(&self) -> (stats: ReorderStats)
        ensures
            stats == self@.stats,
    {
        self.stats
    }

    /// Where session `key` stands.
    fn find(&self, key: SessionKey) -> (at: Option<usize>)
        requires
            self.wf(),
        ensures
            at is Some <==> self@.sessions.contains_key(key),
            at matches Some(i) ==> i < self.sessions@.len() && self.sessions@[i as int].spec_key() == key
                && self.sessions@[i as int]@ == self@.sessions[key],
    {
        let mut i: usize = 0;
        while i < self.sessions.len()
            invariant
                self.wf(),
                i <= self.sessions@.len(),
                forall|j: int| 0 <= j < i ==> (#[trigger] self.sessions@[j]).spec_key() != key,
            decreases self.sessions@.len() - i,
        {
            if self.sessions[i].key() == key {
                proof {
                    lemma_at(self.sessions@, i as int);
                }
                return Some(i);
            }
            i += 1;
        }
        None
    }

    /// Drops a session that was silent for the longest time.
    fn prune(&mut self)
        requires
            old(self).wf(),
            old(self)@.sessions.dom().len() > 0,
        ensures
            final(self).wf(),
            exists|victim: SessionKey|
                #![trigger old(self)@.most_silent(victim)]
                old(self)@.most_silent(victim) && final(self)@ == (ReorderModel {
                    sessions: old(self)@.sessions.remove(victim),
                    ..old(self)@
                }),
    {
        let mut best: usize = 0;
        let mut i: usize = 1;
        while i < self.sessions.len()
            invariant
                self.sessions@ == old(self).sessions@,
                best < i <= self.sessions@.len(),
                forall|j: int|
                    0 <= j < i ==> self.sessions@[best as int]@.last_seen <= (#[trigger] self.sessions@[j])@.last_seen,
            decreases self.sessions@.len() - i,
        {
            if self.sessions[i].last_seen() < self.sessions[best].last_seen() {
                best = i;
            }
            i += 1;
        }
        let ghost before = *old(self);
        let ghost victim = before.sessions@[best as int].spec_key();
        self.sessions.remove(best);
        proof {
            lemma_remove(before.sessions@, best as int);
            lemma_at(before.sessions@, best as int);
            assert(before@.most_silent(victim)) by {
                assert forall|k: SessionKey| #[trigger] before@.sessions.contains_key(k) implies before@.sessions[victim].last_seen
                    <= before@.sessions[k].last_seen by {
                    let j = position(before.sessions@, k);
                    lemma_at(before.sessions@, j);
                }
            }
            assert(self@.sessions.dom() =~= before@.sessions.dom().remove(victim));
            assert(self@ =~= ReorderModel { sessions: before@.sessions.remove(victim), ..before@ });
        }
    }

    /// Takes in the lateness of a packet whose gap was noticed at `noticed`.
    fn measure(&mut self, noticed: Option<u64>, now: u64)
        requires
            old(self).wf(),
        ensures
            final(self).wf(),
            final(self)@ == old(self)@.measured(noticed, now),
    {
        if let Some(t) = noticed {
            let lateness: u64 = if now >= t {
                now - t
            } else {
                0
            };
            self.tuner.record(lateness);
            self.stats.wait_ms = self.tuner.wait() / MILLI;
        }
        assert(self@ =~= old(self)@.measured(noticed, now));
    }

    /// Takes in a packet and appends to `out` those that can be handed on now, in order.
    pub fn push_into(&mut self, packet: Incoming, now: u64, out: &mut Vec<Incoming>)
        requires
            old(self).wf(),
            packet.order matches Some((_, seq)) ==> seq < u64::MAX,
            now + old(self)@.tuner.limit() <= u64::MAX,
        ensures
            final(self).wf(),
            exists|handed: Seq<Incoming>|
                #[trigger] old(self)@.pushes(packet, now, final(self)@, handed) && final(out)@
                    == old(out)@ + handed,
    {
        let (key, counter): (SessionKey, u64) = match numbering_of(&packet) {
            Some(numbered) => numbered,
            None => {
                self.stats.passthrough = self.stats.passthrough.wrapping_add(1);
                out.push(packet);
                assert(old(self)@.pushes(packet, now, self@, seq![packet]));
                assert(out@ =~= old(out)@ + seq![packet]);
                return;
            },
        };
        let ghost limit = self@.tuner.limit();
        let at: Option<usize> = self.find(key);
        if at.is_none() && self.sessions.len() >= MAX_SESSIONS {
            self.prune();
        }
        let ghost room = self@;
        assert(old(self)@.room_made(key, room));
        let i: usize = match at {
            Some(i) => i,
            None => {
                let fresh = Session::new(key, counter, now);
                proof {
                    lemma_push(self.sessions@, fresh);
                    assert(!self@.sessions.contains_key(key));
                }
                self.sessions.push(fresh);
                self.sessions.len() - 1
            },
        };
        let ghost placed = *self;
        let ghost start = room.session(key, counter, now);
        proof {
            assert(distinct(placed.sessions@));
            lemma_at(placed.sessions@, i as int);
            assert(placed.sessions@[i as int]@ == start);
            assert(start.wf(key, limit));
            lemma_shorter_wait(start, key, limit, 0);
            lemma_pushed(start, key, limit, counter, packet, now);
            laws::law_held_packets_are_bounded(
                start.pushed(counter, packet, now).0,
                key,
                limit,
            );
        }
        let outcome = self.sessions[i].push(counter, packet, now, out);
        proof {
            lemma_update(placed.sessions@, i as int, self.sessions@[i as int]);
            assert(self.sessions@ =~= placed.sessions@.update(i as int, self.sessions@[i as int]));
            assert(self@.sessions =~= room.sessions.insert(key, start.pushed(counter, packet, now).0));
            assert(self@.sessions.dom() =~= room.sessions.dom().insert(key));
        }
        match outcome {
            Outcome::Late(noticed) => {
                self.stats.late = self.stats.late.wrapping_add(1);
                self.measure(noticed, now);
            },
            Outcome::InOrder(noticed, count) => {
                self.stats.in_order = self.stats.in_order.wrapping_add(1);
                self.stats.reordered = self.stats.reordered.wrapping_add(count as u64);
                self.measure(noticed, now);
            },
            Outcome::Jumped(count) => {
                self.stats.forced = self.stats.forced.wrapping_add(count as u64);
            },
            Outcome::Held(count) => {
                if count > self.stats.max_held {
                    self.stats.max_held = count;
                }
            },
        }
        assert(self@ =~= room.pushed(key, counter, packet, now).0);
        assert(old(self)@.pushes(packet, now, self@, room.pushed(key, counter, packet, now).1));
    }

    /// The nearest moment at which [`Self::expire_into`] hands something out.
    pub fn next_deadline(&self) -> (deadline: Option<u64>)
        requires
            self.wf(),
        ensures
            self@.is_due_first(deadline),
    {
        let mut best: Option<u64> = None;
        let mut i: usize = 0;
        while i < self.sessions.len()
            invariant
                i <= self.sessions@.len(),
                best matches Some(t) ==> exists|j: int|
                    0 <= j < i && (#[trigger] self.sessions@[j])@.oldest == Some(t),
                forall|j: int| 0 <= j < i ==> ((#[trigger] self.sessions@[j])@.oldest matches Some(o) ==> {
                    &&& best is Some
                    &&& best->0 <= o
                }),
            decreases self.sessions@.len() - i,
        {
            if let Some(o) = self.sessions[i].oldest_arrival() {
                best = match best {
                    Some(t) => Some(if t <= o { t } else { o }),
                    None => Some(o),
                };
            }
            i += 1;
        }
        proof {
            assert forall|k: SessionKey| #[trigger] self@.sessions.contains_key(k) implies {
                self@.sessions[k].oldest matches Some(o) ==> best is Some && best->0 <= o
            } by {
                lemma_at(self.sessions@, position(self.sessions@, k));
            }
            if let Some(t) = best {
                let j = choose|j: int| 0 <= j < self.sessions@.len() && (#[trigger] self.sessions@[j])@.oldest == Some(t);
                lemma_at(self.sessions@, j);
                assert(self@.sessions.contains_key(self.sessions@[j].spec_key()));
            }
        }
        match best {
            Some(t) => Some(t + self.tuner.wait()),
            None => None,
        }
    }

    /// Appends to `out` the held packets whose missing one was not waited out; sessions come in
    /// an order of the buffer's own.
    pub fn expire_into(&mut self, now: u64, out: &mut Vec<Incoming>)
        requires
            old(self).wf(),
        ensures
            final(self).wf(),
            exists|handed: Seq<Incoming>|
                #[trigger] old(self)@.expires(now, final(self)@, handed) && final(out)@ == old(out)@
                    + handed,
    {
        let ghost start = *self;
        let ghost limit = self@.tuner.limit();
        let ghost mut order: Seq<SessionKey> = Seq::empty();
        let wait: u64 = self.tuner.wait();
        let before: usize = out.len();
        let mut i: usize = 0;
        proof {
            assert(out@ =~= old(out)@ + start@.given_up(order, now));
        }
        while i < self.sessions.len()
            invariant
                start.wf(),
                self.tuner == start.tuner,
                self.stats == start.stats,
                wait == start@.tuner.wait,
                limit == start@.tuner.limit(),
                wait <= limit,
                i <= self.sessions@.len(),
                self.sessions@.len() == start.sessions@.len(),
                order.len() == i,
                before == old(out)@.len(),
                before <= out@.len(),
                out@ == old(out)@ + start@.given_up(order, now),
                forall|j: int| 0 <= j < i ==> #[trigger] order[j] == start.sessions@[j].spec_key(),
                forall|j: int| 0 <= j < self.sessions@.len() ==> {
                    &&& (#[trigger] self.sessions@[j]).ring_wf()
                    &&& self.sessions@[j].spec_key() == start.sessions@[j].spec_key()
                    &&& self.sessions@[j]@ == if j < i {
                        start.sessions@[j]@.expired(wait, now).0
                    } else {
                        start.sessions@[j]@
                    }
                },
            decreases self.sessions@.len() - i,
        {
            let ghost key = start.sessions@[i as int].spec_key();
            let ghost prefix = order;
            proof {
                lemma_at(start.sessions@, i as int);
                assert(start@.sessions.contains_key(key));
                lemma_shorter_wait(start.sessions@[i as int]@, key, limit, wait);
            }
            self.sessions[i].expire(wait, now, out);
            proof {
                order = order.push(key);
                assert(order.drop_last() =~= prefix);
                assert(start@.given_up(order, now) =~= start@.given_up(prefix, now) + start.sessions@[i as int]@.expired(wait, now).1);
                assert(out@ =~= old(out)@ + start@.given_up(order, now));
            }
            i += 1;
        }
        self.stats.timed_out = self.stats.timed_out.wrapping_add((out.len() - before) as u64);
        proof {
            assert(distinct(self.sessions@));
            assert forall|k: SessionKey| by_key(self.sessions@).contains_key(k) <==> start@.sessions.contains_key(k) by {
                if has_key(self.sessions@, k) {
                    let j = position(self.sessions@, k);
                    assert(start.sessions@[j].spec_key() == k);
                }
                if has_key(start.sessions@, k) {
                    let j = position(start.sessions@, k);
                    assert(self.sessions@[j].spec_key() == k);
                }
            }
            assert(self@.sessions.dom() =~= start@.sessions.dom());
            assert forall|k: SessionKey| #[trigger] start@.sessions.contains_key(k) implies {
                &&& self@.sessions[k] == start@.sessions[k].expired(wait, now).0
                &&& self@.sessions[k].wf(k, limit)
            } by {
                let j = position(start.sessions@, k);
                lemma_at(start.sessions@, j);
                lemma_at(self.sessions@, j);
                lemma_expired(start@.sessions[k], k, limit, wait, now);
            }
            assert(order.no_duplicates());
            assert forall|k: SessionKey| order.to_set().contains(k) <==> start@.sessions.dom().contains(k) by {
                if order.contains(k) {
                    let j = choose|j: int| 0 <= j < order.len() && order[j] == k;
                    lemma_at(start.sessions@, j);
                }
                if has_key(start.sessions@, k) {
                    let j = position(start.sessions@, k);
                    assert(order[j] == k);
                }
            }
            assert(order.to_set() =~= start@.sessions.dom());
            let handed = start@.given_up(order, now);
            assert(out@.len() - before == handed.len());
            assert(start@.expires(now, self@, handed));
        }
    }

    /// [`Self::push_into`] with a vector of its own.
    pub fn push(&mut self, packet: Incoming, now: u64) -> (out: Vec<Incoming>)
        requires
            old(self).wf(),
            packet.order matches Some((_, seq)) ==> seq < u64::MAX,
            now + old(self)@.tuner.limit() <= u64::MAX,
        ensures
            final(self).wf(),
            old(self)@.pushes(packet, now, final(self)@, out@),
    {
        let mut out: Vec<Incoming> = Vec::new();
        let ghost none = out@;
        self.push_into(packet, now, &mut out);
        proof {
            let handed = choose|handed: Seq<Incoming>|
                #[trigger] old(self)@.pushes(packet, now, self@, handed) && out@ == none + handed;
            assert(out@ =~= handed);
        }
        out
    }

    /// [`Self::expire_into`] with a vector of its own.
    pub fn expire(&mut self, now: u64) -> (out: Vec<Incoming>)
        requires
            old(self).wf(),
        ensures
            final(self).wf(),
            old(self)@.expires(now, final(self)@, out@),
    {
        let mut out: Vec<Incoming> = Vec::new();
        let ghost none = out@;
        self.expire_into(now, &mut out);
        proof {
            let handed = choose|handed: Seq<Incoming>|
                #[trigger] old(self)@.expires(now, self@, handed) && out@ == none + handed;
            assert(out@ =~= handed);
        }
        out
    }
}

} // verus!
