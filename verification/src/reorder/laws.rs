//! What the order buffer promises of every session and of every packet.

use crate::multilink::Incoming;
use crate::reorder::lateness::{TunerModel, MAX_WAIT, MIN_WAIT};
use crate::reorder::ring::lemma_window_len;
use crate::reorder::session::{
    counter_of, lemma_drained, lemma_expired, lemma_flushed, lemma_pushed, numbering, SessionKey,
    SessionModel, MAX_GAP,
};
use crate::reorder::ReorderModel;
use vstd::prelude::*;

verus! {

/// What a packet sets free leaves in ascending order of the counter, and all of it belongs to
/// the packet's session.
pub proof fn law_released_in_order(
    s: SessionModel,
    key: SessionKey,
    limit: u64,
    c: u64,
    packet: Incoming,
    now: u64,
)
    requires
        s.wf(key, limit),
        c < u64::MAX,
        numbering(packet) == Some((key, c)),
    ensures
        ({
            let released = s.pushed(c, packet, now).1;
            &&& forall|i: int| 0 <= i < released.len() ==> {
                &&& numbering(#[trigger] released[i]) matches Some((k, _))
                &&& k == key
            }
            &&& forall|i: int, j: int|
                0 <= i < j < released.len() ==> counter_of(#[trigger] released[i]) < counter_of(
                    #[trigger] released[j],
                )
        }),
{
    let t = SessionModel { last_seen: now, ..s };
    let released = s.pushed(c, packet, now).1;
    if c == t.next {
        let u = SessionModel { next: (c + 1) as u64, ..t };
        assert forall|d: u64| #[trigger] u.held.contains_key(d) implies u.next <= d <= u.next + MAX_GAP by {
            assert(s.held.contains_key(d));
        }
        lemma_drained(u, key, limit);
        assert forall|i: int| 0 <= i < released.len() implies numbering(#[trigger] released[i]) == Some(
            (key, (c + i) as u64),
        ) by {
            if i > 0 {
                assert(released[i] == u.drained().1[i - 1]);
                let d = (u.next + (i - 1)) as u64;
                assert(u.held.contains_key(d));
                assert(s.held.contains_key(d));
            }
        }
    } else if c > t.next && c - t.next > MAX_GAP {
        lemma_flushed(t, key, limit);
        let rest = t.flushed().1;
        assert forall|i: int| 0 <= i < rest.len() implies counter_of(#[trigger] released[i]) < c by {
            assert(released[i] == rest[i]);
            assert(s.held.contains_key(counter_of(rest[i])));
        }
        assert forall|i: int, j: int| 0 <= i < j < released.len() implies counter_of(#[trigger] released[i])
            < counter_of(#[trigger] released[j]) by {
            assert(released[i] == rest[i]);
            if j < rest.len() {
                assert(released[j] == rest[j]);
            }
        }
        assert forall|i: int| 0 <= i < released.len() implies {
            &&& numbering(#[trigger] released[i]) matches Some((k, _))
            &&& k == key
        } by {
            if i < rest.len() {
                assert(released[i] == rest[i]);
            }
        }
    }
}

/// No packet is lost: the packet itself is handed out or held, and a packet that was held is
/// handed out or still held, unless the new one has its counter and takes its place.
pub proof fn law_nothing_is_lost(
    s: SessionModel,
    key: SessionKey,
    limit: u64,
    c: u64,
    packet: Incoming,
    now: u64,
)
    requires
        s.wf(key, limit),
        c < u64::MAX,
        numbering(packet) == Some((key, c)),
    ensures
        ({
            let (end, released, _) = s.pushed(c, packet, now);
            &&& released.contains(packet) || end.held.contains_key(c) && end.held[c].packet == packet
            &&& forall|d: u64| #[trigger]
                s.held.contains_key(d) && d != c ==> {
                    ||| released.contains(s.held[d].packet)
                    ||| end.held.contains_key(d) && end.held[d] == s.held[d]
                }
        }),
{
    let t = SessionModel { last_seen: now, ..s };
    let (end, released, _) = s.pushed(c, packet, now);
    if c < t.next {
        assert(released[0] == packet);
    } else if c == t.next {
        let u = SessionModel { next: (c + 1) as u64, ..t };
        assert forall|d: u64| #[trigger] u.held.contains_key(d) implies u.next <= d <= u.next + MAX_GAP by {
            assert(s.held.contains_key(d));
        }
        lemma_drained(u, key, limit);
        let rest = u.drained().1;
        assert(released[0] == packet);
        assert forall|d: u64| #[trigger] s.held.contains_key(d) && d != c implies {
            ||| released.contains(s.held[d].packet)
            ||| end.held.contains_key(d) && end.held[d] == s.held[d]
        } by {
            assert(u.held.contains_key(d));
            if d < u.next + rest.len() {
                let i = d - u.next;
                assert(rest[i] == u.held[(u.next + i) as u64].packet);
                assert(released[i + 1] == s.held[d].packet);
            } else {
                assert(end.held.contains_key(d));
            }
        }
    } else if c - t.next > MAX_GAP {
        lemma_flushed(t, key, limit);
        let rest = t.flushed().1;
        assert(released[rest.len() as int] == packet);
        assert forall|d: u64| #[trigger] s.held.contains_key(d) && d != c implies released.contains(
            s.held[d].packet,
        ) by {
            assert(t.held.contains_key(d));
            let i = choose|i: int| 0 <= i < rest.len() && rest[i] == t.held[d].packet;
            assert(released[i] == s.held[d].packet);
        }
    }
}

/// No packet is invented: what is handed out is the packet itself or was held.
pub proof fn law_nothing_is_invented(
    s: SessionModel,
    key: SessionKey,
    limit: u64,
    c: u64,
    packet: Incoming,
    now: u64,
)
    requires
        s.wf(key, limit),
        c < u64::MAX,
        numbering(packet) == Some((key, c)),
    ensures
        forall|i: int|
            0 <= i < s.pushed(c, packet, now).1.len() ==> {
                let p = #[trigger] s.pushed(c, packet, now).1[i];
                ||| p == packet
                ||| s.held.contains_key(counter_of(p)) && s.held[counter_of(p)].packet == p
            },
{
    let t = SessionModel { last_seen: now, ..s };
    let released = s.pushed(c, packet, now).1;
    if c == t.next {
        let u = SessionModel { next: (c + 1) as u64, ..t };
        assert forall|d: u64| #[trigger] u.held.contains_key(d) implies u.next <= d <= u.next + MAX_GAP by {
            assert(s.held.contains_key(d));
        }
        lemma_drained(u, key, limit);
        assert forall|i: int| 0 < i < released.len() implies {
            let p = #[trigger] released[i];
            s.held.contains_key(counter_of(p)) && s.held[counter_of(p)].packet == p
        } by {
            assert(released[i] == u.drained().1[i - 1]);
            let d = (u.next + (i - 1)) as u64;
            assert(u.held.contains_key(d));
            assert(s.held.contains_key(d));
        }
    } else if c > t.next && c - t.next > MAX_GAP {
        lemma_flushed(t, key, limit);
        let rest = t.flushed().1;
        assert forall|i: int| 0 <= i < rest.len() implies {
            let p = #[trigger] released[i];
            s.held.contains_key(counter_of(p)) && s.held[counter_of(p)].packet == p
        } by {
            assert(released[i] == rest[i]);
        }
    }
}

/// A packet that comes after its place was given up is handed on at once, alone.
pub proof fn law_late_packets_pass_at_once(s: SessionModel, c: u64, packet: Incoming, now: u64)
    requires
        c < s.next,
    ensures
        s.pushed(c, packet, now).1 == seq![packet],
        s.pushed(c, packet, now).0.next == s.next,
        s.pushed(c, packet, now).0.held == s.held,
{
}

/// A session never holds more than [`MAX_GAP`] packets.
pub proof fn law_held_packets_are_bounded(s: SessionModel, key: SessionKey, limit: u64)
    requires
        s.wf(key, limit),
    ensures
        s.held.dom().len() <= MAX_GAP,
{
    assert forall|c: u64| #[trigger] s.held.dom().contains(c) implies (s.next + 1) as u64 <= c < s.next + 1
        + MAX_GAP && s.next < u64::MAX by {
        assert(s.held.contains_key(c));
    }
    if s.held.dom() == Set::<u64>::empty() {
    } else {
        lemma_window_len(s.held.dom(), (s.next + 1) as u64, MAX_GAP as nat);
    }
}

/// A packet of one session leaves every other session as it is.
pub proof fn law_sessions_are_independent(
    m: ReorderModel,
    key: SessionKey,
    c: u64,
    packet: Incoming,
    now: u64,
    other: SessionKey,
)
    requires
        other != key,
    ensures
        m.pushed(key, c, packet, now).0.sessions.contains_key(other) <==> m.sessions.contains_key(other),
        m.sessions.contains_key(other) ==> m.pushed(key, c, packet, now).0.sessions[other]
            == m.sessions[other],
{
}

/// A fixed wait stays as it is, whatever is measured.
pub proof fn law_fixed_wait_does_not_adapt(t: TunerModel, lateness: u64)
    requires
        !t.adaptive,
    ensures
        t.recorded(lateness) == t,
{
}

/// An adaptive wait stays within its bounds, whatever is measured.
pub proof fn law_adaptive_wait_stays_in_bounds(t: TunerModel, lateness: u64)
    requires
        t.adaptive,
        MIN_WAIT <= t.wait <= MAX_WAIT,
    ensures
        MIN_WAIT <= t.recorded(lateness).wait <= MAX_WAIT,
{
}

/// Once the gaps whose wait is over were given up, no wait is over: the next deadline lies ahead.
pub proof fn law_nothing_is_due_after_expiry(
    s: SessionModel,
    key: SessionKey,
    limit: u64,
    wait: u64,
    now: u64,
)
    requires
        s.wf(key, limit),
    ensures
        s.expired(wait, now).0.oldest matches Some(t) ==> now < t + wait,
{
    lemma_expired(s, key, limit, wait, now);
}

/// A wait that is not over yet is not cut short: nothing is handed out before the deadline.
pub proof fn law_nothing_expires_early(s: SessionModel, wait: u64, now: u64)
    requires
        s.held.dom().finite(),
        s.oldest matches Some(t) ==> now < t + wait,
    ensures
        s.expired(wait, now).0 == s,
        s.expired(wait, now).1 == Seq::<Incoming>::empty(),
{
}

/// A session after a row of packets, each of which arrives at its time, and all that was handed
/// out.
pub open spec fn fed(s: SessionModel, packets: Seq<Incoming>, times: Seq<u64>) -> (
    SessionModel,
    Seq<Incoming>,
)
    decreases packets.len(),
{
    if packets.len() == 0 {
        (s, Seq::empty())
    } else {
        let (t, out) = fed(s, packets.drop_last(), times);
        let (end, released, _) = t.pushed(
            counter_of(packets.last()),
            packets.last(),
            times[packets.len() - 1],
        );
        (end, out + released)
    }
}

/// The packets carry counters of a window of `n` that starts with `next`, none twice.
pub open spec fn window_of(packets: Seq<Incoming>, key: SessionKey, next: u64, n: nat) -> bool {
    &&& forall|i: int| 0 <= i < packets.len() ==> {
        &&& numbering(#[trigger] packets[i]) matches Some((k, c))
        &&& k == key
        &&& next <= c < next + n
    }
    &&& forall|i: int, j: int|
        0 <= i < j < packets.len() ==> counter_of(#[trigger] packets[i]) != counter_of(#[trigger] packets[j])
}

/// A packet with counter `c` is among the packets.
pub open spec fn arrived(packets: Seq<Incoming>, c: u64) -> bool {
    exists|i: int| 0 <= i < packets.len() && counter_of(#[trigger] packets[i]) == c
}

/// What holds after a part of a shuffled window: everything up to the expected counter was
/// handed out in order, everything else that arrived is held.
pub proof fn lemma_fed(
    s: SessionModel,
    key: SessionKey,
    limit: u64,
    packets: Seq<Incoming>,
    n: nat,
    times: Seq<u64>,
)
    requires
        s.wf(key, limit),
        s.held == Map::<u64, crate::reorder::ring::Held>::empty(),
        n <= MAX_GAP + 1,
        s.next + n <= u64::MAX,
        window_of(packets, key, s.next, n),
        times.len() >= packets.len(),
        forall|i: int| 0 <= i < packets.len() ==> #[trigger] times[i] + limit <= u64::MAX,
    ensures
        ({
            let (t, out) = fed(s, packets, times);
            &&& t.wf(key, limit)
            &&& s.next <= t.next
            &&& out.len() == t.next - s.next
            &&& forall|i: int| 0 <= i < out.len() ==> numbering(#[trigger] out[i]) == Some((key, (s.next + i) as u64))
            &&& forall|c: u64| #[trigger]
                arrived(packets, c) <==> (s.next <= c < t.next || t.held.contains_key(c))
        }),
    decreases packets.len(),
{
    if packets.len() == 0 {
        assert forall|c: u64| !s.held.contains_key(c) by {}
    } else {
        let before = packets.drop_last();
        let packet = packets.last();
        let now = times[packets.len() - 1];
        let c = counter_of(packet);
        assert forall|i: int| 0 <= i < before.len() implies #[trigger] before[i] == packets[i] by {}
        assert(window_of(before, key, s.next, n));
        lemma_fed(s, key, limit, before, n, times);
        let (t, out) = fed(s, before, times);
        assert(packets[packets.len() - 1] == packet);
        assert(!arrived(before, c)) by {
            if arrived(before, c) {
                let i = choose|i: int| 0 <= i < before.len() && counter_of(#[trigger] before[i]) == c;
                assert(counter_of(packets[i]) != counter_of(packets[packets.len() - 1]));
            }
        }
        assert(c >= t.next && !t.held.contains_key(c));
        assert forall|d: u64| arrived(packets, d) <==> arrived(before, d) || d == c by {
            if arrived(before, d) {
                let i = choose|i: int| 0 <= i < before.len() && counter_of(#[trigger] before[i]) == d;
                assert(counter_of(packets[i]) == d);
            }
            if d == c {
                assert(counter_of(packets[packets.len() - 1]) == d);
            }
            if arrived(packets, d) && d != c {
                let i = choose|i: int| 0 <= i < packets.len() && counter_of(#[trigger] packets[i]) == d;
                assert(before[i] == packets[i]);
            }
        }
        lemma_pushed(t, key, limit, c, packet, now);
        let (end, released, _) = t.pushed(c, packet, now);
        if c == t.next {
            let u = SessionModel { next: (c + 1) as u64, last_seen: now, ..t };
            assert forall|d: u64| #[trigger] u.held.contains_key(d) implies u.next <= d <= u.next + MAX_GAP by {
                assert(t.held.contains_key(d));
            }
            lemma_drained(u, key, limit);
            let rest = u.drained().1;
            let all = out + released;
            assert forall|i: int| 0 <= i < all.len() implies numbering(#[trigger] all[i]) == Some(
                (key, (s.next + i) as u64),
            ) by {
                if i > out.len() {
                    let k = i - out.len() - 1;
                    assert(all[i] == rest[k]);
                    assert(u.held.contains_key((u.next + k) as u64));
                } else if i == out.len() {
                    assert(all[i] == packet);
                } else {
                    assert(all[i] == out[i]);
                }
            }
            assert forall|d: u64| #[trigger] arrived(packets, d) <==> (s.next <= d < end.next || end.held.contains_key(d)) by {
                assert(arrived(before, d) <==> (s.next <= d < t.next || t.held.contains_key(d)));
                if t.next < d < end.next {
                    let k = d - u.next;
                    assert(rest[k] == u.held[(u.next + k) as u64].packet);
                    assert(u.held.contains_key(d));
                }
            }
        } else {
            assert(released =~= Seq::<Incoming>::empty());
            assert(out + released =~= out);
            assert forall|d: u64| #[trigger] arrived(packets, d) <==> (s.next <= d < end.next || end.held.contains_key(d)) by {
                assert(arrived(before, d) <==> (s.next <= d < t.next || t.held.contains_key(d)));
            }
        }
    }
}

/// A window of packets that arrives in any order comes out sorted: whatever permutation of the
/// counters `next, next + 1, ..` (at most [`MAX_GAP`]` + 1` of them) is fed in, at whatever times,
/// the packets are handed out exactly in the order of the counters and none is held any more.
pub proof fn law_shuffled_window_comes_out_sorted(
    s: SessionModel,
    key: SessionKey,
    limit: u64,
    packets: Seq<Incoming>,
    times: Seq<u64>,
)
    requires
        s.wf(key, limit),
        s.held == Map::<u64, crate::reorder::ring::Held>::empty(),
        packets.len() <= MAX_GAP + 1,
        s.next + packets.len() <= u64::MAX,
        window_of(packets, key, s.next, packets.len()),
        forall|c: u64|
            s.next <= c < s.next + packets.len() ==> #[trigger] arrived(packets, c),
        times.len() >= packets.len(),
        forall|i: int| 0 <= i < packets.len() ==> #[trigger] times[i] + limit <= u64::MAX,
    ensures
        fed(s, packets, times).1.len() == packets.len(),
        forall|i: int|
            0 <= i < packets.len() ==> counter_of(#[trigger] fed(s, packets, times).1[i]) == s.next + i,
        fed(s, packets, times).0.next == s.next + packets.len(),
        fed(s, packets, times).0.oldest is None,
{
    lemma_fed(s, key, limit, packets, packets.len(), times);
    let t = fed(s, packets, times).0;
    if t.next < s.next + packets.len() {
        assert(arrived(packets, t.next));
    }
    if t.next > s.next + packets.len() {
        let c = (t.next - 1) as u64;
        assert(arrived(packets, c));
    }
    assert forall|c: u64| !t.held.dom().contains(c) by {
        if t.held.contains_key(c) {
            assert(arrived(packets, c));
            let i = choose|i: int| 0 <= i < packets.len() && counter_of(#[trigger] packets[i]) == c;
            assert(numbering(packets[i]) is Some);
        }
    }
    assert(t.held.dom() =~= Set::<u64>::empty());
}

} // verus!
