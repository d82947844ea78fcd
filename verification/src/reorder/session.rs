//! One order session: a run of counters, the packets that are ahead of it, and the gaps that
//! were given up.

use crate::multilink::Incoming;
use crate::reorder::ring::{
    earliest, is_lowest, lemma_earliest_exists, lemma_lowest_exists, lemma_window_len, lowest, oldest_with,
    oldest_without, Held, HeldRing,
};
use std::collections::HashMap;
use vstd::prelude::*;

verus! {

broadcast use vstd::std_specs::hash::group_hash_axioms;

/// A jump further ahead than this is not waited for.
pub const MAX_GAP: u64 = 511;

/// How many given-up counters a session remembers, to measure those that arrive late.
pub const MAX_SKIPPED: usize = 1024;

/// An order session: a flow bucket, or a flow bucket of a client behind a router.
#[derive(Clone, Copy, Debug, PartialEq, Eq, Structural)]
pub enum SessionKey {
    Flow(u32),
    Client(u8, u32),
}

/// The session and the counter of a packet; `None` for a packet without a number.
pub open spec fn numbering(packet: Incoming) -> Option<(SessionKey, u64)> {
    match packet.order {
        Some((flow, seq)) => match packet.wrapped {
            Some(info) => Some((SessionKey::Client(info.client_id, flow), seq)),
            None => Some((SessionKey::Flow(flow), seq)),
        },
        None => None,
    }
}

/// The counter of a numbered packet.
pub open spec fn counter_of(packet: Incoming) -> u64 {
    (numbering(packet)->0).1
}

/// The session and the counter of a packet.
pub fn numbering_of(packet: &Incoming) -> (key: Option<(SessionKey, u64)>)
    ensures
        key == numbering(*packet),
{
    match packet.order {
        Some((flow, seq)) => match packet.wrapped {
            Some(info) => Some((SessionKey::Client(info.client_id, flow), seq)),
            None => Some((SessionKey::Flow(flow), seq)),
        },
        None => None,
    }
}

/// What became of a packet.
#[derive(Clone, Copy, Debug, PartialEq, Eq, Structural)]
pub enum Outcome {
    /// Behind the expected counter; when its gap was noticed, if it had been given up.
    Late(Option<u64>),
    /// The expected one; when its gap was noticed, and how many held packets followed it.
    InOrder(Option<u64>, usize),
    /// Too far ahead; how many held packets were handed out before it.
    Jumped(usize),
    /// Held back; how many packets the session holds now.
    Held(usize),
}

#[verifier::ext_equal]
pub struct SessionModel {
    /// The counter expected next.
    pub next: u64,
    /// Packets ahead of it, by counter.
    pub held: Map<u64, Held>,
    /// The moment the wait for the missing packet is counted from.
    pub oldest: Option<u64>,
    pub last_seen: u64,
    /// Counters that were given up, and when their gap was noticed.
    pub skipped: Map<u64, u64>,
}

impl SessionModel {
    /// A session that starts with counter `counter`.
    pub open spec fn fresh(counter: u64, now: u64) -> Self {
        SessionModel {
            next: counter,
            held: Map::empty(),
            oldest: None,
            last_seen: now,
            skipped: Map::empty(),
        }
    }

    /// Held packets belong to session `key` and lie ahead of the expected counter, at most
    /// [`MAX_GAP`] away; a deadline counted from any arrival stays below `u64::MAX` for waits up
    /// to `limit`.
    pub open spec fn wf(self, key: SessionKey, limit: u64) -> bool {
        self.ahead(key, limit) && !self.held.contains_key(self.next)
    }

    /// The same, but the expected counter itself may be held.
    pub open spec fn ahead(self, key: SessionKey, limit: u64) -> bool {
        &&& self.held.dom().finite()
        &&& self.skipped.dom().finite()
        &&& self.skipped.dom().len() <= MAX_SKIPPED
        &&& forall|c: u64| #[trigger]
            self.held.contains_key(c) ==> {
                &&& self.next <= c <= self.next + MAX_GAP
                &&& c < u64::MAX
                &&& self.held[c].counter == c
                &&& numbering(self.held[c].packet) == Some((key, c))
                &&& self.oldest is Some
                &&& self.oldest->0 <= self.held[c].arrived
                &&& self.held[c].arrived + limit <= u64::MAX
            }
        &&& self.oldest is Some <==> self.held.dom() != Set::<u64>::empty()
        &&& self.oldest matches Some(t) ==> t + limit <= u64::MAX
    }

    /// The held packet `c` leaves.
    pub open spec fn without(self, c: u64) -> Self {
        let rest = self.held.remove(c);
        SessionModel {
            held: rest,
            oldest: oldest_without(self.oldest, self.held[c].arrived, rest),
            ..self
        }
    }

    /// Hands out the held packets that follow one another from the expected counter on.
    pub open spec fn drained(self) -> (Self, Seq<Incoming>)
        decreases self.held.dom().len(),
        when self.held.dom().finite()
    {
        if self.held.contains_key(self.next) {
            let rest = SessionModel { next: (self.next + 1) as u64, ..self.without(self.next) };
            let (end, released) = rest.drained();
            (end, seq![self.held[self.next].packet] + released)
        } else {
            (self, Seq::empty())
        }
    }

    /// Gives the gap up: hands out the lowest held packet and what follows it.
    pub open spec fn released_lowest(self) -> (Self, Seq<Incoming>) {
        SessionModel { next: lowest(self.held), ..self }.drained()
    }

    /// Hands out all held packets, lowest counter first.
    pub open spec fn flushed(self) -> (Self, Seq<Incoming>)
        decreases self.held.dom().len(),
        when self.held.dom().finite()
    {
        if exists|c: u64| is_lowest(self.held, c) {
            let c = lowest(self.held);
            let (end, released) = self.without(c).flushed();
            (end, seq![self.held[c].packet] + released)
        } else {
            (self, Seq::empty())
        }
    }

    /// Remembers the counters below the lowest held packet as given up.
    pub open spec fn gap_noted(self) -> Self {
        let first = lowest(self.held);
        let kept = if self.skipped.dom().len() + (first - self.next) > MAX_SKIPPED {
            Map::<u64, u64>::empty()
        } else {
            self.skipped
        };
        SessionModel {
            skipped: kept.union_prefer_right(
                Map::new(|c: u64| self.next <= c < first, |c: u64| self.oldest->0),
            ),
            ..self
        }
    }

    /// The wait for the missing packet is over.
    pub open spec fn due(self, wait: u64, now: u64) -> bool {
        self.oldest matches Some(t) && t + wait <= now
    }

    /// Takes in the packet with counter `c`: the session after it, what is handed out, and what
    /// became of the packet.
    pub open spec fn pushed(self, c: u64, packet: Incoming, now: u64) -> (Self, Seq<Incoming>, Outcome) {
        let s = SessionModel { last_seen: now, ..self };
        if c < s.next {
            let noticed = if s.skipped.contains_key(c) {
                Some(s.skipped[c])
            } else {
                None
            };
            (SessionModel { skipped: s.skipped.remove(c), ..s }, seq![packet], Outcome::Late(noticed))
        } else if c == s.next {
            let (end, rest) = SessionModel { next: (c + 1) as u64, ..s }.drained();
            (end, seq![packet] + rest, Outcome::InOrder(s.oldest, rest.len() as usize))
        } else if c - s.next > MAX_GAP {
            let (end, rest) = s.flushed();
            (
                SessionModel { next: (c + 1) as u64, ..end },
                rest.push(packet),
                Outcome::Jumped(rest.len() as usize),
            )
        } else {
            let end = SessionModel {
                held: s.held.insert(c, Held { counter: c, packet, arrived: now }),
                oldest: oldest_with(s.oldest, now),
                ..s
            };
            (end, Seq::empty(), Outcome::Held(end.held.dom().len() as usize))
        }
    }

    /// Gives up gaps until the wait is no longer over.
    pub open spec fn expired(self, wait: u64, now: u64) -> (Self, Seq<Incoming>)
        decreases self.held.dom().len(),
        when self.held.dom().finite()
    {
        let (rest, first) = self.gap_noted().released_lowest();
        if self.due(wait, now) && rest.held.dom().len() < self.held.dom().len() {
            proof {
                lemma_drained_finite(SessionModel { next: lowest(self.held), ..self.gap_noted() });
            }
            let (end, others) = rest.expired(wait, now);
            (end, first + others)
        } else {
            (self, Seq::empty())
        }
    }
}

/// Handing out leaves a finite part of what was held.
pub proof fn lemma_drained_finite(s: SessionModel)
    requires
        s.held.dom().finite(),
    ensures
        s.drained().0.held.dom().finite(),
        s.drained().0.held.dom().len() <= s.held.dom().len(),
        s.held.contains_key(s.next) ==> s.drained().0.held.dom().len() < s.held.dom().len(),
    decreases s.held.dom().len(),
{
    if s.held.contains_key(s.next) {
        let rest = SessionModel { next: (s.next + 1) as u64, ..s.without(s.next) };
        assert(rest.held.dom() =~= s.held.dom().remove(s.next));
        lemma_drained_finite(rest);
    }
}

/// A packet that leaves keeps the rest of the session in order.
pub proof fn lemma_without(s: SessionModel, key: SessionKey, limit: u64, c: u64)
    requires
        s.ahead(key, limit),
        s.held.contains_key(c),
    ensures
        s.without(c).ahead(key, limit),
        s.without(c).held.dom() == s.held.dom().remove(c),
{
    let t = s.without(c);
    assert(t.held.dom() =~= s.held.dom().remove(c));
    if t.held.dom() == Set::<u64>::empty() {
        assert forall|d: u64| #[trigger] t.held.contains_key(d) implies false by {
            assert(t.held.dom().contains(d));
        }
    } else {
        lemma_earliest_exists(t.held);
        assert forall|d: u64| #[trigger] t.held.contains_key(d) implies s.held.contains_key(d) by {}
        let d = choose|d: u64| #[trigger] t.held.contains_key(d) && t.held[d].arrived == earliest(t.held);
        assert(s.held.contains_key(d));
    }
}

/// Handing out from the expected counter on leaves a session in order.
pub proof fn lemma_drained(s: SessionModel, key: SessionKey, limit: u64)
    requires
        s.ahead(key, limit),
    ensures
        s.drained().0.wf(key, limit),
        s.drained().0.next == s.next + s.drained().1.len(),
        s.drained().0.held.dom().len() + s.drained().1.len() == s.held.dom().len(),
        s.drained().0.last_seen == s.last_seen,
        s.drained().0.skipped == s.skipped,
        s.held.contains_key(s.next) ==> s.drained().1.len() > 0,
        forall|i: int| 0 <= i < s.drained().1.len() ==> {
            let c = (s.next + i) as u64;
            &&& s.held.contains_key(c)
            &&& #[trigger] s.drained().1[i] == s.held[c].packet
        },
        forall|c: u64| #[trigger]
            s.drained().0.held.contains_key(c) <==> s.held.contains_key(c) && c >= s.next
                + s.drained().1.len(),
        forall|c: u64| #[trigger]
            s.drained().0.held.contains_key(c) ==> s.drained().0.held[c] == s.held[c],
    decreases s.held.dom().len(),
{
    if s.held.contains_key(s.next) {
        let rest = SessionModel { next: (s.next + 1) as u64, ..s.without(s.next) };
        lemma_without(s, key, limit, s.next);
        assert(rest.ahead(key, limit)) by {
            assert forall|c: u64| #[trigger] rest.held.contains_key(c) implies rest.next <= c <= rest.next
                + MAX_GAP by {
                assert(s.held.contains_key(c));
            }
        }
        lemma_drained(rest, key, limit);
        let released = s.drained().1;
        assert forall|i: int| 0 <= i < released.len() implies {
            let c = (s.next + i) as u64;
            &&& s.held.contains_key(c)
            &&& #[trigger] released[i] == s.held[c].packet
        } by {
            if i > 0 {
                assert(released[i] == rest.drained().1[i - 1]);
                assert((rest.next + (i - 1)) as u64 == (s.next + i) as u64);
                assert(rest.held.contains_key((s.next + i) as u64));
            }
        }
        assert forall|c: u64| #[trigger] s.drained().0.held.contains_key(c) implies s.drained().0.held[c]
            == s.held[c] by {
            assert(rest.held.contains_key(c));
        }
    }
}

/// Handing everything out, lowest first, empties the session.
pub proof fn lemma_flushed(s: SessionModel, key: SessionKey, limit: u64)
    requires
        s.ahead(key, limit),
    ensures
        s.flushed().0 == (SessionModel { held: Map::empty(), oldest: None, ..s }),
        s.flushed().1.len() == s.held.dom().len(),
        forall|i: int| 0 <= i < s.flushed().1.len() ==> {
            &&& numbering(#[trigger] s.flushed().1[i]) matches Some((k, c))
            &&& k == key
            &&& s.held.contains_key(c)
            &&& s.flushed().1[i] == s.held[c].packet
        },
        forall|i: int, j: int|
            0 <= i < j < s.flushed().1.len() ==> counter_of(#[trigger] s.flushed().1[i]) < counter_of(
                #[trigger] s.flushed().1[j],
            ),
        forall|c: u64| #[trigger]
            s.held.contains_key(c) ==> exists|i: int|
                0 <= i < s.flushed().1.len() && s.flushed().1[i] == s.held[c].packet,
    decreases s.held.dom().len(),
{
    if s.held.dom() == Set::<u64>::empty() {
        assert forall|c: u64| !is_lowest(s.held, c) by {
            assert(!s.held.dom().contains(c));
        }
        assert(s.held =~= Map::<u64, Held>::empty());
        assert forall|c: u64| #[trigger] s.held.contains_key(c) implies false by {
            assert(s.held.dom().contains(c));
        }
    } else {
        lemma_lowest_exists(s.held);
        let c = lowest(s.held);
        assert(is_lowest(s.held, c));
        lemma_without(s, key, limit, c);
        let rest = s.without(c);
        lemma_flushed(rest, key, limit);
        let released = s.flushed().1;
        assert(released =~= seq![s.held[c].packet] + rest.flushed().1);
        assert forall|i: int| 0 < i < released.len() implies {
            &&& numbering(#[trigger] released[i]) matches Some((k, d))
            &&& k == key
            &&& rest.held.contains_key(d)
            &&& s.held.contains_key(d)
            &&& released[i] == s.held[d].packet
            &&& c < d
        } by {
            assert(released[i] == rest.flushed().1[i - 1]);
            let d = counter_of(rest.flushed().1[i - 1]);
            assert(rest.held.contains_key(d));
            assert(s.held.contains_key(d));
        }
        assert forall|i: int, j: int| 0 <= i < j < released.len() implies counter_of(#[trigger] released[i])
            < counter_of(#[trigger] released[j]) by {
            assert(released[j] == rest.flushed().1[j - 1]);
            if i > 0 {
                assert(released[i] == rest.flushed().1[i - 1]);
            }
        }
        assert forall|d: u64| #[trigger] s.held.contains_key(d) implies exists|i: int|
            0 <= i < released.len() && released[i] == s.held[d].packet by {
            if d == c {
                assert(released[0] == s.held[c].packet);
            } else {
                assert(rest.held.contains_key(d));
                let i = choose|i: int| 0 <= i < rest.flushed().1.len() && rest.flushed().1[i] == rest.held[d].packet;
                assert(released[i + 1] == s.held[d].packet);
            }
        }
    }
}

/// A session in order with room for waits up to `limit` also has it for shorter ones.
pub proof fn lemma_shorter_wait(s: SessionModel, key: SessionKey, limit: u64, shorter: u64)
    requires
        s.wf(key, limit),
        shorter <= limit,
    ensures
        s.wf(key, shorter),
{
}

/// Taking in a packet keeps the session in order.
pub proof fn lemma_pushed(s: SessionModel, key: SessionKey, limit: u64, c: u64, packet: Incoming, now: u64)
    requires
        s.wf(key, limit),
        c < u64::MAX,
        numbering(packet) == Some((key, c)),
        now + limit <= u64::MAX,
    ensures
        s.pushed(c, packet, now).0.wf(key, limit),
{
    let t = SessionModel { last_seen: now, ..s };
    let end = s.pushed(c, packet, now).0;
    if c < t.next {
        assert(end.held == s.held);
        assert forall|d: u64| #[trigger] end.held.contains_key(d) implies s.held.contains_key(d) by {}
    } else if c == t.next {
        let u = SessionModel { next: (c + 1) as u64, ..t };
        assert forall|d: u64| #[trigger] u.held.contains_key(d) implies u.next <= d <= u.next + MAX_GAP by {
            assert(s.held.contains_key(d));
        }
        lemma_drained(u, key, limit);
    } else if c - t.next > MAX_GAP {
        lemma_flushed(t, key, limit);
    } else {
        assert forall|d: u64| #[trigger] end.held.contains_key(d) implies d == c || s.held.contains_key(d) by {}
        assert(end.held.dom() =~= s.held.dom().insert(c));
        assert(end.held.dom().contains(c));
    }
}

/// A given-up gap: the lowest held packet, and so at least one, is handed out, and the session
/// stays in order.
pub proof fn lemma_given_up(s: SessionModel, key: SessionKey, limit: u64)
    requires
        s.wf(key, limit),
        s.oldest is Some,
    ensures
        is_lowest(s.held, lowest(s.held)),
        s.next < lowest(s.held) <= s.next + MAX_GAP,
        s.gap_noted().wf(key, limit),
        (SessionModel { next: lowest(s.held), ..s.gap_noted() }).ahead(key, limit),
        s.gap_noted().released_lowest().0.wf(key, limit),
        s.gap_noted().released_lowest().1.len() > 0,
        s.gap_noted().released_lowest().0.held.dom().len() < s.held.dom().len(),
{
    lemma_lowest_exists(s.held);
    let first = lowest(s.held);
    let g = s.gap_noted();
    let gap = Map::new(|c: u64| s.next <= c < first, |c: u64| s.oldest->0);
    lemma_range_finite(s.next, first);
    assert(gap.dom() =~= Set::new(|c: u64| s.next <= c < first));
    lemma_window_len(gap.dom(), s.next, (first - s.next) as nat);
    if s.skipped.dom().len() + (first - s.next) > MAX_SKIPPED {
        assert(g.skipped.dom() =~= gap.dom());
    } else {
        assert(g.skipped.dom() =~= s.skipped.dom().union(gap.dom()));
        vstd::set_lib::lemma_len_union(s.skipped.dom(), gap.dom());
    }
    let t = SessionModel { next: first, ..g };
    assert forall|c: u64| #[trigger] t.held.contains_key(c) implies t.next <= c <= t.next + MAX_GAP by {
        assert(s.held.contains_key(c));
    }
    lemma_drained(t, key, limit);
}

/// The counters of a range are finitely many.
proof fn lemma_range_finite(lo: u64, hi: u64)
    ensures
        Set::new(|c: u64| lo <= c < hi).finite(),
    decreases hi,
{
    let s = Set::new(|c: u64| lo <= c < hi);
    if lo < hi {
        let t = Set::new(|c: u64| lo <= c < (hi - 1) as u64);
        lemma_range_finite(lo, (hi - 1) as u64);
        assert(s =~= t.insert((hi - 1) as u64));
    } else {
        assert(s =~= Set::<u64>::empty());
    }
}

/// Giving up gaps keeps the session in order, and afterwards no wait is over.
pub proof fn lemma_expired(s: SessionModel, key: SessionKey, limit: u64, wait: u64, now: u64)
    requires
        s.wf(key, limit),
    ensures
        s.expired(wait, now).0.wf(key, limit),
        !s.expired(wait, now).0.due(wait, now),
        s.expired(wait, now).0.last_seen == s.last_seen,
    decreases s.held.dom().len(),
{
    if s.due(wait, now) {
        lemma_given_up(s, key, limit);
        let (rest, first) = s.gap_noted().released_lowest();
        lemma_drained(SessionModel { next: lowest(s.held), ..s.gap_noted() }, key, limit);
        lemma_expired(rest, key, limit, wait, now);
    }
}

pub struct Session {
    key: SessionKey,
    next: u64,
    held: HeldRing,
    last_seen: u64,
    skipped: HashMap<u64, u64>,
}

impl View for Session {
    type V = SessionModel;

    closed spec fn view(&self) -> SessionModel {
        SessionModel {
            next: self.next,
            held: self.held.held(),
            oldest: self.held.oldest(),
            last_seen: self.last_seen,
            skipped: self.skipped@,
        }
    }
}

impl Session {
    pub closed spec fn ring_wf(&self) -> bool {
        self.held.wf()
    }

    pub closed spec fn spec_key(&self) -> SessionKey {
        self.key
    }

    pub open spec fn wf(&self, limit: u64) -> bool {
        self.ring_wf() && self@.wf(self.spec_key(), limit)
    }

    pub fn key(&self) -> (key: SessionKey)
        ensures
            key == self.spec_key(),
    {
        self.key
    }

    pub fn last_seen(&self) -> (t: u64)
        ensures
            t == self@.last_seen,
    {
        self.last_seen
    }

    /// The moment the wait for the missing packet is counted from.
    pub fn oldest_arrival(&self) -> (t: Option<u64>)
        ensures
            t == self@.oldest,
    {
        self.held.oldest_arrival()
    }

    /// A session that starts with counter `counter`.
    pub fn new(key: SessionKey, counter: u64, now: u64) -> (session: Self)
        ensures
            session.spec_key() == key,
            session@ == SessionModel::fresh(counter, now),
            session.wf(u64::MAX),
    {
        let session = Self {
            key,
            next: counter,
            held: HeldRing::new(),
            last_seen: now,
            skipped: HashMap::new(),
        };
        assert(session@ =~= SessionModel::fresh(counter, now));
        session
    }

    /// Hands out the held packets that follow one another from the expected counter on.
    fn drain(&mut self, out: &mut Vec<Incoming>) -> (count: usize)
        requires
            old(self).ring_wf(),
            old(self)@.held.dom().finite(),
            forall|c: u64| #[trigger] old(self)@.held.contains_key(c) ==> c < u64::MAX,
        ensures
            final(self).ring_wf(),
            final(self).spec_key() == old(self).spec_key(),
            final(self)@ == old(self)@.drained().0,
            final(out)@ == old(out)@ + old(self)@.drained().1,
            count == old(self)@.drained().1.len(),
    {
        let ghost start = self@;
        let before: usize = out.len();
        loop
            invariant
                self.ring_wf(),
                self.spec_key() == old(self).spec_key(),
                self@.held.dom().finite(),
                forall|c: u64| #[trigger] self@.held.contains_key(c) ==> c < u64::MAX,
                start.drained().0 == self@.drained().0,
                old(out)@ + start.drained().1 == out@ + self@.drained().1,
                before <= out@.len(),
            ensures
                !self@.held.contains_key(self@.next),
            decreases self@.held.dom().len(),
        {
            let ghost s = self@;
            let next: u64 = self.next;
            match self.held.remove(next) {
                Some(item) => {
                    out.push(item.packet);
                    self.next = next + 1;
                    proof {
                        assert(s.held.contains_key(s.next));
                        assert(self@ =~= SessionModel { next: (s.next + 1) as u64, ..s.without(s.next) });
                        assert(self@.held.dom() =~= s.held.dom().remove(s.next));
                    }
                },
                None => {
                    break ;
                },
            }
        }
        out.len() - before
    }

    /// Hands out all held packets, lowest counter first.
    fn flush(&mut self, out: &mut Vec<Incoming>) -> (count: usize)
        requires
            old(self).ring_wf(),
            old(self)@.held.dom().finite(),
        ensures
            final(self).ring_wf(),
            final(self).spec_key() == old(self).spec_key(),
            final(self)@ == old(self)@.flushed().0,
            final(out)@ == old(out)@ + old(self)@.flushed().1,
            count == old(self)@.flushed().1.len(),
    {
        let ghost start = self@;
        let before: usize = out.len();
        loop
            invariant
                self.ring_wf(),
                self.spec_key() == old(self).spec_key(),
                self@.held.dom().finite(),
                start.flushed().0 == self@.flushed().0,
                old(out)@ + start.flushed().1 == out@ + self@.flushed().1,
                before <= out@.len(),
            ensures
                self@.held.dom() == Set::<u64>::empty(),
            decreases self@.held.dom().len(),
        {
            let ghost s = self@;
            match self.held.first() {
                Some(low) => {
                    if let Some(item) = self.held.remove(low) {
                        out.push(item.packet);
                    }
                    proof {
                        assert(is_lowest(s.held, low));
                        assert(self@ =~= s.without(low));
                        assert(self@.held.dom() =~= s.held.dom().remove(low));
                    }
                },
                None => {
                    break ;
                },
            }
        }
        proof {
            assert forall|c: u64| !is_lowest(self@.held, c) by {
                assert(!self@.held.dom().contains(c));
            }
        }
        out.len() - before
    }

    /// Takes in a packet and appends to `out` those that can be handed on now.
    pub fn push(&mut self, counter: u64, packet: Incoming, now: u64, out: &mut Vec<Incoming>) -> (outcome: Outcome)
        requires
            old(self).ring_wf(),
            old(self)@.wf(old(self).spec_key(), 0),
            counter < u64::MAX,
            numbering(packet) == Some((old(self).spec_key(), counter)),
        ensures
            final(self).ring_wf(),
            final(self).spec_key() == old(self).spec_key(),
            final(self)@ == old(self)@.pushed(counter, packet, now).0,
            final(out)@ == old(out)@ + old(self)@.pushed(counter, packet, now).1,
            outcome == old(self)@.pushed(counter, packet, now).2,
    {
        let ghost s = SessionModel { last_seen: now, ..old(self)@ };
        let ghost key = self.spec_key();
        self.last_seen = now;
        assert(self@ =~= s);
        if counter < self.next {
            let noticed: Option<u64> = self.skipped.remove(&counter);
            out.push(packet);
            assert(self@ =~= old(self)@.pushed(counter, packet, now).0);
            assert(out@ =~= old(out)@ + seq![packet]);
            return Outcome::Late(noticed);
        }
        if counter == self.next {
            let noticed: Option<u64> = self.oldest_arrival();
            out.push(packet);
            self.next = counter + 1;
            proof {
                let t = SessionModel { next: (counter + 1) as u64, ..s };
                assert(self@ =~= t);
                assert forall|c: u64| #[trigger] t.held.contains_key(c) implies t.next <= c <= t.next + MAX_GAP by {
                    assert(s.held.contains_key(c));
                }
                lemma_drained(t, key, 0);
            }
            let count: usize = self.drain(out);
            assert(out@ =~= old(out)@ + old(self)@.pushed(counter, packet, now).1);
            return Outcome::InOrder(noticed, count);
        }
        if counter - self.next > MAX_GAP {
            proof {
                lemma_flushed(s, key, 0);
            }
            let count: usize = self.flush(out);
            out.push(packet);
            self.next = counter + 1;
            assert(self@ =~= old(self)@.pushed(counter, packet, now).0);
            assert(out@ =~= old(out)@ + old(self)@.pushed(counter, packet, now).1);
            return Outcome::Jumped(count);
        }
        self.held.insert(Held { counter, packet, arrived: now });
        let count: usize = self.held.len();
        assert(self@ =~= old(self)@.pushed(counter, packet, now).0);
        assert(out@ =~= old(out)@ + old(self)@.pushed(counter, packet, now).1);
        Outcome::Held(count)
    }

    /// Remembers the counters below the lowest held packet as given up.
    fn note_gap(&mut self)
        requires
            old(self).ring_wf(),
            old(self)@.wf(old(self).spec_key(), 0),
            old(self)@.oldest is Some,
        ensures
            final(self).ring_wf(),
            final(self).spec_key() == old(self).spec_key(),
            final(self)@ == old(self)@.gap_noted(),
    {
        let ghost s = self@;
        proof {
            lemma_given_up(s, self.spec_key(), 0);
        }
        if let (Some(oldest), Some(first)) = (self.held.oldest_arrival(), self.held.first()) {
            let missing: u64 = self.next;
            if self.skipped.len() as u64 + (first - missing) > MAX_SKIPPED as u64 {
                self.skipped.clear();
            }
            let ghost kept = self.skipped@;
            let mut c: u64 = missing;
            while c < first
                invariant
                    missing <= c <= first,
                    self.ring_wf(),
                    self.spec_key() == old(self).spec_key(),
                    self@ == (SessionModel { skipped: self.skipped@, ..s }),
                    self.skipped@ == kept.union_prefer_right(
                        Map::new(|d: u64| missing <= d < c, |d: u64| oldest),
                    ),
                decreases first - c,
            {
                self.skipped.insert(c, oldest);
                c += 1;
                assert(self.skipped@ =~= kept.union_prefer_right(
                    Map::new(|d: u64| missing <= d < c, |d: u64| oldest),
                ));
            }
            assert(Map::new(|d: u64| missing <= d < c, |d: u64| oldest) =~= Map::new(
                |d: u64| s.next <= d < first,
                |d: u64| s.oldest->0,
            ));
            assert(self@ =~= s.gap_noted());
        }
    }

    /// Appends to `out` the held packets whose missing one did not come within `wait`.
    pub fn expire(&mut self, wait: u64, now: u64, out: &mut Vec<Incoming>) -> (count: usize)
        requires
            old(self).ring_wf(),
            old(self)@.wf(old(self).spec_key(), wait),
        ensures
            final(self).ring_wf(),
            final(self).spec_key() == old(self).spec_key(),
            final(self)@ == old(self)@.expired(wait, now).0,
            final(out)@ == old(out)@ + old(self)@.expired(wait, now).1,
            count == old(self)@.expired(wait, now).1.len(),
    {
        let ghost start = self@;
        let before: usize = out.len();
        loop
            invariant
                self.ring_wf(),
                self.spec_key() == old(self).spec_key(),
                self@.wf(self.spec_key(), wait),
                start.expired(wait, now).0 == self@.expired(wait, now).0,
                old(out)@ + start.expired(wait, now).1 == out@ + self@.expired(wait, now).1,
                before <= out@.len(),
            ensures
                !self@.due(wait, now),
            decreases self@.held.dom().len(),
        {
            let ghost s = self@;
            let ghost sent = out@;
            match self.held.oldest_arrival() {
                Some(oldest) => {
                    if now < oldest + wait {
                        break ;
                    }
                },
                None => {
                    break ;
                },
            }
            proof {
                lemma_given_up(s, self.spec_key(), wait);
                lemma_shorter_wait(s, self.spec_key(), wait, 0);
            }
            self.note_gap();
            if let Some(first) = self.held.first() {
                self.next = first;
                assert(self@ =~= SessionModel { next: lowest(s.held), ..s.gap_noted() });
                self.drain(out);
            }
            proof {
                let (rest, released) = s.gap_noted().released_lowest();
                assert(self@ == rest);
                assert(s.expired(wait, now).1 =~= released + rest.expired(wait, now).1);
                assert(out@ =~= sent + released);
            }
        }
        out.len() - before
    }
}

} // verus!
