//! What a session promises of every step, down to each packet, whatever the clock shows.

use crate::multilink::Incoming;
use crate::reorder::ring::{is_earliest, is_lowest, lemma_earliest_exists, lemma_lowest_exists, lowest};
use crate::reorder::session::{
    counter_of, lemma_drained, lemma_flushed, lemma_given_up, lemma_pushed,
    lemma_without, numbering, Outcome, SessionKey, SessionModel, MAX_GAP,
};
use vstd::prelude::*;

verus! {

/// How often the session `key` holds the packet: a packet can only be held under its own number.
pub open spec fn held_times(s: SessionModel, key: SessionKey, p: Incoming) -> nat {
    match numbering(p) {
        Some((k, c)) => if k == key && s.held.contains_key(c) && s.held[c].packet == p {
            1
        } else {
            0
        },
        None => 0,
    }
}

/// How often a packet is among others.
pub open spec fn times(packets: Seq<Incoming>, p: Incoming) -> nat {
    packets.to_multiset().count(p)
}

pub proof fn lemma_times_add(a: Seq<Incoming>, b: Seq<Incoming>, p: Incoming)
    ensures
        times(a + b, p) == times(a, p) + times(b, p),
{
    vstd::seq_lib::lemma_multiset_commutative(a, b);
}

pub proof fn lemma_times_one(q: Incoming, p: Incoming)
    ensures
        times(seq![q], p) == if p == q {
            1nat
        } else {
            0nat
        },
        times(Seq::<Incoming>::empty(), p) == 0,
{
    broadcast use vstd::seq_lib::group_to_multiset_ensures;

    assert(seq![q] =~= Seq::<Incoming>::empty().push(q));
}

pub proof fn lemma_times_push(a: Seq<Incoming>, q: Incoming, p: Incoming)
    ensures
        times(a.push(q), p) == times(a, p) + if p == q {
            1nat
        } else {
            0nat
        },
{
    broadcast use vstd::seq_lib::group_to_multiset_ensures;

}

/// Handing out from the expected counter on: each packet is handed out or still held.
pub proof fn lemma_drained_times(s: SessionModel, key: SessionKey, p: Incoming)
    requires
        s.ahead(key, 0),
    ensures
        times(s.drained().1, p) + held_times(s.drained().0, key, p) == held_times(s, key, p),
    decreases s.held.dom().len(),
{
    if s.held.contains_key(s.next) {
        let rest = SessionModel { next: (s.next + 1) as u64, ..s.without(s.next) };
        lemma_without(s, key, 0, s.next);
        assert forall|c: u64| #[trigger] rest.held.contains_key(c) implies rest.next <= c <= rest.next
            + MAX_GAP by {
            assert(s.held.contains_key(c));
        }
        assert(rest.ahead(key, 0));
        lemma_drained_times(rest, key, p);
        let q = s.held[s.next].packet;
        lemma_times_add(seq![q], rest.drained().1, p);
        lemma_times_one(q, p);
    } else {
        lemma_times_one(p, p);
    }
}

/// Handing everything out: each packet that was held is handed out once.
pub proof fn lemma_flushed_times(s: SessionModel, key: SessionKey, p: Incoming)
    requires
        s.ahead(key, 0),
    ensures
        times(s.flushed().1, p) == held_times(s, key, p),
    decreases s.held.dom().len(),
{
    if exists|c: u64| is_lowest(s.held, c) {
        let c = lowest(s.held);
        assert(is_lowest(s.held, c));
        lemma_without(s, key, 0, c);
        let rest = s.without(c);
        lemma_flushed_times(rest, key, p);
        let q = s.held[c].packet;
        lemma_times_add(seq![q], rest.flushed().1, p);
        lemma_times_one(q, p);
    } else {
        lemma_times_one(p, p);
        if s.held.dom() != Set::<u64>::empty() {
            lemma_lowest_exists(s.held);
        }
    }
}

/// Taking in a packet whose number is not held: each packet is handed out or held, as often as
/// it was held or came.
pub proof fn lemma_pushed_times(
    s: SessionModel,
    key: SessionKey,
    c: u64,
    packet: Incoming,
    now: u64,
    p: Incoming,
)
    requires
        s.wf(key, 0),
        c < u64::MAX,
        numbering(packet) == Some((key, c)),
        !s.held.contains_key(c),
    ensures
        times(s.pushed(c, packet, now).1, p) + held_times(s.pushed(c, packet, now).0, key, p)
            == held_times(s, key, p) + if p == packet {
            1nat
        } else {
            0nat
        },
{
    let t = SessionModel { last_seen: now, ..s };
    lemma_times_one(packet, p);
    if c == t.next {
        let u = SessionModel { next: (c + 1) as u64, ..t };
        assert forall|d: u64| #[trigger] u.held.contains_key(d) implies u.next <= d <= u.next + MAX_GAP by {
            assert(s.held.contains_key(d));
        }
        lemma_drained_times(u, key, p);
        lemma_times_add(seq![packet], u.drained().1, p);
    } else if c > t.next && c - t.next > MAX_GAP {
        lemma_flushed(t, key, 0);
        lemma_flushed_times(t, key, p);
        lemma_times_push(t.flushed().1, packet, p);
    }
}

/// Giving up gaps: each packet is handed out or still held.
pub proof fn lemma_expired_times(s: SessionModel, key: SessionKey, wait: u64, now: u64, p: Incoming)
    requires
        s.wf(key, 0),
    ensures
        times(s.expired(wait, now).1, p) + held_times(s.expired(wait, now).0, key, p)
            == held_times(s, key, p),
    decreases s.held.dom().len(),
{
    if s.due(wait, now) {
        lemma_given_up(s, key, 0);
        let t = SessionModel { next: lowest(s.held), ..s.gap_noted() };
        let (rest, first) = s.gap_noted().released_lowest();
        lemma_drained_times(t, key, p);
        lemma_expired_times(rest, key, wait, now, p);
        lemma_times_add(first, rest.expired(wait, now).1, p);
    } else {
        lemma_times_one(p, p);
    }
}

/// What is handed out when gaps are given up: packets of the session in ascending order, all
/// behind the counter that is expected afterwards; something exactly if a wait is over.
pub proof fn lemma_expired_order(s: SessionModel, key: SessionKey, wait: u64, now: u64)
    requires
        s.wf(key, 0),
    ensures
        ({
            let (end, out) = s.expired(wait, now);
            &&& s.next <= end.next
            &&& out.len() > 0 <==> s.due(wait, now)
            &&& forall|i: int| 0 <= i < out.len() ==> {
                &&& numbering(#[trigger] out[i]) matches Some((k, c))
                &&& k == key
                &&& s.next < c < end.next
            }
            &&& forall|i: int, j: int|
                0 <= i < j < out.len() ==> counter_of(#[trigger] out[i]) < counter_of(
                    #[trigger] out[j],
                )
        }),
    decreases s.held.dom().len(),
{
    let (end, out) = s.expired(wait, now);
    if s.due(wait, now) {
        lemma_given_up(s, key, 0);
        let t = SessionModel { next: lowest(s.held), ..s.gap_noted() };
        let (rest, first) = s.gap_noted().released_lowest();
        lemma_drained(t, key, 0);
        lemma_expired_order(rest, key, wait, now);
        let others = rest.expired(wait, now).1;
        assert forall|i: int| 0 <= i < first.len() implies numbering(#[trigger] first[i]) == Some(
            (key, (t.next + i) as u64),
        ) && t.next + i < rest.next by {
            let c = (t.next + i) as u64;
            assert(t.held.contains_key(c));
            assert(first[i] == t.held[c].packet);
        }
        assert forall|i: int| 0 <= i < out.len() implies {
            &&& numbering(#[trigger] out[i]) matches Some((k, c))
            &&& k == key
            &&& s.next < c < end.next
        } by {
            if i < first.len() {
                assert(out[i] == first[i]);
            } else {
                assert(out[i] == others[i - first.len()]);
            }
        }
        assert forall|i: int, j: int| 0 <= i < j < out.len() implies counter_of(#[trigger] out[i])
            < counter_of(#[trigger] out[j]) by {
            if j < first.len() {
                assert(out[i] == first[i] && out[j] == first[j]);
            } else if i < first.len() {
                assert(out[i] == first[i] && out[j] == others[j - first.len()]);
            } else {
                assert(out[i] == others[i - first.len()] && out[j] == others[j - first.len()]);
            }
        }
    }
}

/// What is held after a session handed out from the expected counter on was held before.
pub proof fn lemma_drained_held(s: SessionModel, key: SessionKey)
    requires
        s.ahead(key, 0),
    ensures
        forall|c: u64| #[trigger]
            s.drained().0.held.contains_key(c) ==> s.held.contains_key(c) && s.drained().0.held[c]
                == s.held[c],
{
    lemma_drained(s, key, 0);
}

/// Giving up gaps hands out as many packets as are not held any more.
pub proof fn lemma_expired_len(s: SessionModel, key: SessionKey, wait: u64, now: u64)
    requires
        s.wf(key, 0),
    ensures
        s.expired(wait, now).1.len() + s.expired(wait, now).0.held.dom().len()
            == s.held.dom().len(),
    decreases s.held.dom().len(),
{
    if s.due(wait, now) {
        lemma_given_up(s, key, 0);
        let t = SessionModel { next: lowest(s.held), ..s.gap_noted() };
        lemma_drained(t, key, 0);
        lemma_expired_len(s.gap_noted().released_lowest().0, key, wait, now);
    }
}

/// What a session still holds after giving up gaps it held before.
pub proof fn lemma_expired_held(s: SessionModel, key: SessionKey, wait: u64, now: u64)
    requires
        s.wf(key, 0),
    ensures
        forall|c: u64| #[trigger]
            s.expired(wait, now).0.held.contains_key(c) ==> s.held.contains_key(c) && s.expired(
                wait,
                now,
            ).0.held[c] == s.held[c],
    decreases s.held.dom().len(),
{
    if s.due(wait, now) {
        lemma_given_up(s, key, 0);
        let t = SessionModel { next: lowest(s.held), ..s.gap_noted() };
        let rest = s.gap_noted().released_lowest().0;
        lemma_drained_held(t, key);
        lemma_expired_held(rest, key, wait, now);
        assert forall|c: u64| #[trigger] s.expired(wait, now).0.held.contains_key(c) implies s.held.contains_key(c)
            && s.expired(wait, now).0.held[c] == s.held[c] by {
            assert(rest.held.contains_key(c));
            assert(t.held.contains_key(c));
        }
    }
}

/// What a packet changes in its session: the expected counter does not fall, what is handed out
/// lies behind it afterwards, and what is held was held or is the packet. The outcome tells how
/// many packets are handed out.
pub proof fn lemma_pushed_step(s: SessionModel, key: SessionKey, c: u64, packet: Incoming, now: u64)
    requires
        s.wf(key, 0),
        c < u64::MAX,
        numbering(packet) == Some((key, c)),
    ensures
        ({
            let (end, out, outcome) = s.pushed(c, packet, now);
            &&& end.wf(key, 0)
            &&& s.next <= end.next
            &&& end.held.dom().len() <= MAX_GAP
            &&& out.len() <= MAX_GAP + 1
            &&& forall|i: int| 0 <= i < out.len() ==> {
                &&& numbering(#[trigger] out[i]) matches Some((k, d))
                &&& k == key
                &&& d < end.next
            }
            &&& forall|d: u64| #[trigger]
                end.held.contains_key(d) ==> {
                    ||| s.held.contains_key(d) && end.held[d] == s.held[d]
                    ||| d == c && end.held[d].packet == packet && end.held[d].arrived == now
                }
            &&& match outcome {
                Outcome::Late(_) => c < s.next && out == seq![packet],
                Outcome::InOrder(_, n) => c == s.next && out.len() == n + 1,
                Outcome::Jumped(n) => c - s.next > MAX_GAP && out.len() == n + 1,
                Outcome::Held(n) => s.next < c <= s.next + MAX_GAP && out.len() == 0 && n
                    == end.held.dom().len(),
            }
        }),
{
    let t = SessionModel { last_seen: now, ..s };
    let (end, out, outcome) = s.pushed(c, packet, now);
    lemma_pushed(s, key, 0, c, packet, now);
    crate::reorder::laws::law_held_packets_are_bounded(s, key, 0);
    crate::reorder::laws::law_held_packets_are_bounded(end, key, 0);
    if c < t.next {
        assert(out =~= seq![packet]);
    } else if c == t.next {
        let u = SessionModel { next: (c + 1) as u64, ..t };
        assert forall|d: u64| #[trigger] u.held.contains_key(d) implies u.next <= d <= u.next + MAX_GAP by {
            assert(s.held.contains_key(d));
        }
        lemma_drained(u, key, 0);
        let rest = u.drained().1;
        assert forall|i: int| 0 <= i < out.len() implies {
            &&& numbering(#[trigger] out[i]) matches Some((k, d))
            &&& k == key
            &&& d < end.next
        } by {
            if i > 0 {
                assert(out[i] == rest[i - 1]);
                assert(u.held.contains_key((u.next + (i - 1)) as u64));
            }
        }
        assert forall|d: u64| #[trigger] end.held.contains_key(d) implies s.held.contains_key(d)
            && end.held[d] == s.held[d] by {
            assert(u.held.contains_key(d));
        }
    } else if c - t.next > MAX_GAP {
        lemma_flushed(t, key, 0);
        let rest = t.flushed().1;
        assert forall|i: int| 0 <= i < out.len() implies {
            &&& numbering(#[trigger] out[i]) matches Some((k, d))
            &&& k == key
            &&& d < end.next
        } by {
            if i < rest.len() {
                assert(out[i] == rest[i]);
                assert(t.held.contains_key(counter_of(rest[i])));
            }
        }
    }
}

/// The moment the wait is counted from is the earliest arrival of a packet that is held.
pub open spec fn exact(s: SessionModel) -> bool {
    s.oldest matches Some(t) ==> is_earliest(s.held, t)
}

proof fn lemma_without_exact(s: SessionModel, key: SessionKey, c: u64)
    requires
        s.ahead(key, 0),
        exact(s),
        s.held.contains_key(c),
    ensures
        exact(s.without(c)),
{
    let t = s.without(c);
    lemma_without(s, key, 0, c);
    if t.held.dom() != Set::<u64>::empty() {
        lemma_earliest_exists(t.held);
        if s.oldest != Some(s.held[c].arrived) {
            let o = s.oldest->0;
            let d = choose|d: u64| #[trigger] s.held.contains_key(d) && s.held[d].arrived == o;
            assert(t.held.contains_key(d) && t.held[d].arrived == o);
            assert forall|e: u64| #[trigger] t.held.contains_key(e) implies o <= t.held[e].arrived by {
                assert(s.held.contains_key(e));
            }
            assert(is_earliest(t.held, o));
        }
    }
}

proof fn lemma_drained_exact(s: SessionModel, key: SessionKey)
    requires
        s.ahead(key, 0),
        exact(s),
    ensures
        exact(s.drained().0),
    decreases s.held.dom().len(),
{
    if s.held.contains_key(s.next) {
        let rest = SessionModel { next: (s.next + 1) as u64, ..s.without(s.next) };
        lemma_without(s, key, 0, s.next);
        lemma_without_exact(s, key, s.next);
        assert forall|c: u64| #[trigger] rest.held.contains_key(c) implies rest.next <= c <= rest.next
            + MAX_GAP by {
            assert(s.held.contains_key(c));
        }
        assert(rest.ahead(key, 0));
        lemma_drained_exact(rest, key);
    }
}

/// A packet whose number is not held keeps the moment exact.
pub proof fn lemma_pushed_exact(s: SessionModel, key: SessionKey, c: u64, packet: Incoming, now: u64)
    requires
        s.wf(key, 0),
        exact(s),
        c < u64::MAX,
        numbering(packet) == Some((key, c)),
        !s.held.contains_key(c),
    ensures
        exact(s.pushed(c, packet, now).0),
{
    let t = SessionModel { last_seen: now, ..s };
    let end = s.pushed(c, packet, now).0;
    if c == t.next {
        let u = SessionModel { next: (c + 1) as u64, ..t };
        assert forall|d: u64| #[trigger] u.held.contains_key(d) implies u.next <= d <= u.next + MAX_GAP by {
            assert(s.held.contains_key(d));
        }
        lemma_drained_exact(u, key);
    } else if c > t.next && c - t.next > MAX_GAP {
        lemma_flushed(t, key, 0);
    } else if c > t.next {
        let o = end.oldest->0;
        assert(end.held.contains_key(c) && end.held[c].arrived == now);
        if s.oldest is Some && s.oldest->0 <= now {
            let d = choose|d: u64| #[trigger] s.held.contains_key(d) && s.held[d].arrived == s.oldest->0;
            assert(end.held.contains_key(d) && end.held[d].arrived == o);
        }
        assert forall|e: u64| #[trigger] end.held.contains_key(e) implies o <= end.held[e].arrived by {
            if e != c {
                assert(s.held.contains_key(e));
            }
        }
        assert(is_earliest(end.held, o));
    }
}

/// Giving up gaps keeps the moment exact.
pub proof fn lemma_expired_exact(s: SessionModel, key: SessionKey, wait: u64, now: u64)
    requires
        s.wf(key, 0),
        exact(s),
    ensures
        exact(s.expired(wait, now).0),
    decreases s.held.dom().len(),
{
    if s.due(wait, now) {
        lemma_given_up(s, key, 0);
        let t = SessionModel { next: lowest(s.held), ..s.gap_noted() };
        lemma_drained_exact(t, key);
        lemma_expired_exact(s.gap_noted().released_lowest().0, key, wait, now);
    }
}

} // verus!
