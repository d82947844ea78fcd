//! What one call of a resequencer does, case by case.

use super::lateness::TunerModel;
use super::laws::law_held_packets_are_bounded;
use super::ring::{lowest, Held};
use super::session::{
    lemma_drained, lemma_expired, lemma_flushed, lemma_given_up, numbering, numbering_of, SessionKey,
    SessionModel, MAX_GAP,
};
use super::steps::{lemma_drained_held, lemma_expired_order, lemma_pushed_step};
use super::{ReorderModel, ReorderStats, Resequencer};
use crate::multilink::Incoming;
use vstd::prelude::*;

verus! {

/// Packets are put in order by their flow, and those of clients behind a relay by their client and
/// their flow; the number in the flow is what they are ordered by. Packets without it are not.
pub proof fn law_packets_are_ordered_in_their_flows(packet: Incoming, key: Option<(SessionKey, u64)>)
    requires
        call_ensures(numbering_of, (&packet,), key),
    ensures
        packet.order is None <==> key is None,
        packet.order matches Some((flow, seq)) ==> {
            &&& (key->0).1 == seq
            &&& packet.wrapped is None ==> (key->0).0 == SessionKey::Flow(flow)
            &&& packet.wrapped matches Some(info) ==> (key->0).0 == SessionKey::Client(
                info.client_id,
                flow,
            )
        },
{
}

/// A packet of a flow that is known, `next` being the number that is expected of it. The expected
/// one is handed out first, and a held one that follows it directly comes next. One ahead, by 511
/// at most, is held, with the moment of its arrival, and nothing is handed out. One further ahead
/// is handed out behind all that is held, and the flow goes on behind it. One behind is handed out
/// alone, and nothing is expected or held otherwise.
pub proof fn law_packets_of_a_known_flow(packet: Incoming, now: u64)
    ensures
        forall|r: &mut Resequencer, out: Vec<Incoming>| #[trigger]
            call_ensures(Resequencer::push, (r, packet, now), out) && (*r).wf() ==> {
                numbering(packet) matches Some((key, c)) ==> ((*r)@.sessions.contains_key(key) && c
                    < u64::MAX ==> ({
                    let (before, after) = ((*r)@.sessions[key], final(r)@.sessions[key]);
                    &&& final(r)@.sessions.contains_key(key)
                    &&& after.last_seen == now
                    &&& c == before.next ==> {
                        &&& out@.len() > 0 && out@[0] == packet
                        &&& after.next == c + out@.len()
                        &&& before.held.contains_key((c + 1) as u64) ==> out@.len() > 1 && out@[1]
                            == before.held[(c + 1) as u64].packet
                        &&& !before.held.contains_key((c + 1) as u64) ==> out@.len() == 1
                    }
                    &&& before.next < c <= before.next + 511 ==> {
                        &&& out@.len() == 0
                        &&& after.next == before.next
                        &&& after.held.contains_key(c) && after.held[c].packet == packet
                            && after.held[c].arrived == now
                        &&& after.held.remove(c) =~= before.held.remove(c)
                    }
                    &&& c > before.next + 511 ==> {
                        &&& out@.len() == before.held.dom().len() + 1
                        &&& out@.last() == packet
                        &&& after.next == c + 1
                        &&& after.held =~= Map::empty()
                    }
                    &&& c < before.next ==> {
                        &&& out@ == seq![packet]
                        &&& after.next == before.next
                        &&& after.held == before.held
                        &&& !after.skipped.contains_key(c)
                    }
                    &&& forall|k: SessionKey| k != key ==> ((*r)@.sessions.contains_key(k) <==> (
                    #[trigger] final(r)@.sessions.contains_key(k)))
                }))
            },
{
    assert forall|r: &mut Resequencer, out: Vec<Incoming>| #[trigger]
        call_ensures(Resequencer::push, (r, packet, now), out) && (*r).wf() implies {
        numbering(packet) matches Some((key, c)) ==> ((*r)@.sessions.contains_key(key) && c
            < u64::MAX ==> ({
            let (before, after) = ((*r)@.sessions[key], final(r)@.sessions[key]);
            &&& final(r)@.sessions.contains_key(key)
            &&& after.last_seen == now
            &&& c == before.next ==> {
                &&& out@.len() > 0 && out@[0] == packet
                &&& after.next == c + out@.len()
                &&& before.held.contains_key((c + 1) as u64) ==> out@.len() > 1 && out@[1]
                    == before.held[(c + 1) as u64].packet
                &&& !before.held.contains_key((c + 1) as u64) ==> out@.len() == 1
            }
            &&& before.next < c <= before.next + 511 ==> {
                &&& out@.len() == 0
                &&& after.next == before.next
                &&& after.held.contains_key(c) && after.held[c].packet == packet
                    && after.held[c].arrived == now
                &&& after.held.remove(c) =~= before.held.remove(c)
            }
            &&& c > before.next + 511 ==> {
                &&& out@.len() == before.held.dom().len() + 1
                &&& out@.last() == packet
                &&& after.next == c + 1
                &&& after.held =~= Map::empty()
            }
            &&& c < before.next ==> {
                &&& out@ == seq![packet]
                &&& after.next == before.next
                &&& after.held == before.held
                &&& !after.skipped.contains_key(c)
            }
            &&& forall|k: SessionKey| k != key ==> ((*r)@.sessions.contains_key(k) <==> (
            #[trigger] final(r)@.sessions.contains_key(k)))
        }))
    } by {
        if let Some((key, c)) = numbering(packet) {
            if (*r)@.sessions.contains_key(key) && c < u64::MAX {
                r.lemma_model();
                let m = (*r)@;
                let room = choose|room: ReorderModel| #![trigger m.room_made(key, room)] {
                    &&& m.room_made(key, room)
                    &&& final(r)@ == room.pushed(key, c, packet, now).0
                    &&& out@ == room.pushed(key, c, packet, now).1
                };
                assert(room == m);
                lemma_one_packet(m, key, c, packet, now);
            }
        }
    }
}

/// The session after a packet, in the model of the whole.
proof fn lemma_one_packet(m: ReorderModel, key: SessionKey, c: u64, packet: Incoming, now: u64)
    requires
        m.sessions.contains_key(key),
        m.sessions[key].wf(key, 0),
        c < u64::MAX,
    ensures
        ({
            let (after, out) = m.pushed(key, c, packet, now);
            let s = SessionModel { last_seen: now, ..m.sessions[key] };
            let (end, handed, _) = m.sessions[key].pushed(c, packet, now);
            &&& after.sessions == m.sessions.insert(key, end)
            &&& out == handed
            &&& end.last_seen == now
            &&& c == s.next ==> {
                &&& end.next == c + out.len()
                &&& s.held.contains_key((c + 1) as u64) ==> out.len() > 1 && out[1] == s.held[(c
                    + 1) as u64].packet
                &&& !s.held.contains_key((c + 1) as u64) ==> out.len() == 1
                &&& end.skipped == s.skipped
            }
            &&& c - s.next > 511 ==> {
                &&& end.next == c + 1
                &&& end.held == Map::<u64, Held>::empty()
                &&& out.len() == s.held.dom().len() + 1
            }
        }),
{
    let s = SessionModel { last_seen: now, ..m.sessions[key] };
    assert(s.wf(key, 0));
    if c == s.next {
        let t = SessionModel { next: (c + 1) as u64, ..s };
        assert forall|d: u64| #[trigger] t.held.contains_key(d) implies t.next <= d <= t.next
            + MAX_GAP by {
            assert(s.held.contains_key(d));
        }
        assert(t.ahead(key, 0));
        lemma_drained(t, key, 0);
        if t.drained().1.len() > 0 {
            assert(t.drained().1[0] == t.held[(t.next + 0) as u64].packet);
        }
    } else if c - s.next > 511 {
        lemma_flushed(s, key, 0);
    }
}

/// A packet of a flow that is not known is handed out at once, and the flow goes on behind it. With
/// fewer than 16 flows all others stay; with 16, one of those that were silent the longest goes.
pub proof fn law_packets_of_a_new_flow(packet: Incoming, now: u64, k: SessionKey)
    ensures
        forall|r: &mut Resequencer, out: Vec<Incoming>| #[trigger]
            call_ensures(Resequencer::push, (r, packet, now), out) && (*r).wf() ==> {
                numbering(packet) matches Some((key, c)) ==> (!(*r)@.sessions.contains_key(key) && c
                    < u64::MAX ==> ({
                    let (before, after) = ((*r)@.sessions, final(r)@.sessions);
                    &&& out@ == seq![packet]
                    &&& after.contains_key(key)
                    &&& after[key].next == c + 1
                    &&& after[key].held =~= Map::empty()
                    &&& after[key].last_seen == now
                    &&& final(r)@.tuner == (*r)@.tuner
                    &&& before.dom().len() < 16 && before.contains_key(k) ==> after.contains_key(k)
                        && after[k] == before[k]
                    &&& before.dom().len() >= 16 ==> after.dom().len() == before.dom().len()
                    &&& k != key && after.contains_key(k) ==> before.contains_key(k) && after[k]
                        == before[k]
                    &&& before.contains_key(k) && !after.contains_key(k) ==> forall|other: SessionKey|
                        #[trigger]
                        before.contains_key(other) ==> before[k].last_seen <= before[other].last_seen
                }))
            },
{
    assert forall|r: &mut Resequencer, out: Vec<Incoming>| #[trigger]
        call_ensures(Resequencer::push, (r, packet, now), out) && (*r).wf() implies {
        numbering(packet) matches Some((key, c)) ==> (!(*r)@.sessions.contains_key(key) && c
            < u64::MAX ==> ({
            let (before, after) = ((*r)@.sessions, final(r)@.sessions);
            &&& out@ == seq![packet]
            &&& after.contains_key(key)
            &&& after[key].next == c + 1
            &&& after[key].held =~= Map::empty()
            &&& after[key].last_seen == now
            &&& final(r)@.tuner == (*r)@.tuner
            &&& before.dom().len() < 16 && before.contains_key(k) ==> after.contains_key(k) && after[k]
                == before[k]
            &&& before.dom().len() >= 16 ==> after.dom().len() == before.dom().len()
            &&& k != key && after.contains_key(k) ==> before.contains_key(k) && after[k] == before[k]
            &&& before.contains_key(k) && !after.contains_key(k) ==> forall|other: SessionKey| #[trigger]
                before.contains_key(other) ==> before[k].last_seen <= before[other].last_seen
        }))
    } by {
        if let Some((key, c)) = numbering(packet) {
            if !(*r)@.sessions.contains_key(key) && c < u64::MAX {
                r.lemma_model();
                let m = (*r)@;
                let room = choose|room: ReorderModel| #![trigger m.room_made(key, room)] {
                    &&& m.room_made(key, room)
                    &&& final(r)@ == room.pushed(key, c, packet, now).0
                    &&& out@ == room.pushed(key, c, packet, now).1
                };
                let t = SessionModel { next: (c + 1) as u64, ..SessionModel::fresh(c, now) };
                assert(t.held.dom() =~= Set::<u64>::empty());
                assert(t.drained() == (t, Seq::<Incoming>::empty()));
                assert(seq![packet] + Seq::<Incoming>::empty() =~= seq![packet]);
                let after = final(r)@.sessions;
                assert(after == room.sessions.insert(key, t));
                assert(after.dom() =~= room.sessions.dom().insert(key));
                if m.sessions.dom().len() >= 16 {
                    let victim = choose|victim: SessionKey| #![trigger m.most_silent(victim)]
                        m.most_silent(victim) && room == (ReorderModel {
                            sessions: m.sessions.remove(victim),
                            ..m
                        });
                    assert(room.sessions.dom() =~= m.sessions.dom().remove(victim));
                    assert(!room.sessions.dom().contains(key));
                }
            }
        }
    }
}

/// The latenesses that a tuner has measured: one more, where it adapts.
pub open spec fn measured_one(before: TunerModel, after: TunerModel, lateness: int) -> bool {
    &&& after.adaptive == before.adaptive
    &&& !before.adaptive ==> after == before
    &&& before.adaptive && before.samples.len() < 512 ==> after.samples == before.samples.push(
        lateness as u64,
    )
    &&& before.adaptive && before.samples.len() >= 512 ==> after.samples == before.samples.update(
        before.pos,
        lateness as u64,
    )
}

/// How late a packet is, is measured from the moment when it was found missing: for the expected
/// one the moment from which its flow waits for it, for one that was given up the one that was
/// noted then. Nothing is measured of any other packet.
pub proof fn law_lateness_is_measured_from_the_gap(packet: Incoming, now: u64)
    ensures
        forall|r: &mut Resequencer, out: Vec<Incoming>| #[trigger]
            call_ensures(Resequencer::push, (r, packet, now), out) && (*r).wf() ==> {
                let (before, after) = ((*r)@.tuner, final(r)@.tuner);
                &&& numbering(packet) is None ==> after == before
                &&& numbering(packet) matches Some((key, c)) ==> ((*r)@.sessions.contains_key(key) && c
                    < u64::MAX ==> ({
                    let s = (*r)@.sessions[key];
                    &&& c == s.next && s.oldest is Some && s.oldest->0 <= now ==> measured_one(
                        before,
                        after,
                        now - s.oldest->0,
                    )
                    &&& c == s.next && s.oldest is None ==> after == before
                    &&& c < s.next && s.skipped.contains_key(c) && s.skipped[c] <= now
                        ==> measured_one(before, after, now - s.skipped[c])
                    &&& c < s.next && !s.skipped.contains_key(c) ==> after == before
                    &&& c > s.next ==> after == before
                }))
            },
{
    assert forall|r: &mut Resequencer, out: Vec<Incoming>| #[trigger]
        call_ensures(Resequencer::push, (r, packet, now), out) && (*r).wf() implies {
        let (before, after) = ((*r)@.tuner, final(r)@.tuner);
        &&& numbering(packet) is None ==> after == before
        &&& numbering(packet) matches Some((key, c)) ==> ((*r)@.sessions.contains_key(key) && c
            < u64::MAX ==> ({
            let s = (*r)@.sessions[key];
            &&& c == s.next && s.oldest is Some && s.oldest->0 <= now ==> measured_one(
                before,
                after,
                now - s.oldest->0,
            )
            &&& c == s.next && s.oldest is None ==> after == before
            &&& c < s.next && s.skipped.contains_key(c) && s.skipped[c] <= now ==> measured_one(
                before,
                after,
                now - s.skipped[c],
            )
            &&& c < s.next && !s.skipped.contains_key(c) ==> after == before
            &&& c > s.next ==> after == before
        }))
    } by {
        if let Some((key, c)) = numbering(packet) {
            if (*r)@.sessions.contains_key(key) && c < u64::MAX {
                let m = (*r)@;
                let room = choose|room: ReorderModel| #![trigger m.room_made(key, room)] {
                    &&& m.room_made(key, room)
                    &&& final(r)@ == room.pushed(key, c, packet, now).0
                    &&& out@ == room.pushed(key, c, packet, now).1
                };
                assert(room == m);
            }
        }
    }
}

/// A new resequencer has counted nothing. A fixed wait is the one that is given; an adaptive one
/// starts there too, but is at least 3 and at most 30 milliseconds long. The wait is shown in whole
/// milliseconds.
pub proof fn law_resequencers_start_with_their_wait(
    wait: u64,
    fixed: Resequencer,
    adaptive: Resequencer,
    fixed_wait: u64,
    adaptive_wait: u64,
    shown: ReorderStats,
    deadline: Option<u64>,
)
    requires
        call_ensures(Resequencer::new, (wait,), fixed),
        call_ensures(Resequencer::adaptive, (wait,), adaptive),
        call_ensures(Resequencer::wait, (&fixed,), fixed_wait),
        call_ensures(Resequencer::wait, (&adaptive,), adaptive_wait),
        call_ensures(Resequencer::stats, (&fixed,), shown),
        call_ensures(Resequencer::next_deadline, (&fixed,), deadline),
    ensures
        fixed_wait == wait,
        3_000_000 <= wait <= 30_000_000 ==> adaptive_wait == wait,
        wait < 3_000_000 ==> adaptive_wait == 3_000_000,
        wait > 30_000_000 ==> adaptive_wait == 30_000_000,
        shown.passthrough == 0 && shown.in_order == 0 && shown.reordered == 0 && shown.timed_out == 0
            && shown.late == 0 && shown.forced == 0 && shown.max_held == 0,
        shown.wait_ms == wait / 1_000_000,
        !fixed@.tuner.adaptive && adaptive@.tuner.adaptive,
        deadline is None,
{
}

/// The next deadline is the earliest moment at which a flow that waits has waited long enough;
/// there is none exactly where nothing is held.
pub proof fn law_the_next_deadline_is_the_earliest(
    r: &Resequencer,
    deadline: Option<u64>,
    key: SessionKey,
    c: u64,
)
    requires
        r.wf(),
        call_ensures(Resequencer::next_deadline, (r,), deadline),
    ensures
        r@.sessions.contains_key(key) && r@.sessions[key].held.contains_key(c) ==> (deadline matches Some(
            t,
        ) && t <= r@.sessions[key].held[c].arrived + r@.tuner.wait),
        deadline matches Some(t) ==> exists|k: SessionKey| #[trigger]
            r@.sessions.contains_key(k) && r@.sessions[k].held.dom() != Set::<u64>::empty()
                && r@.sessions[k].oldest is Some && t == r@.sessions[k].oldest->0 + r@.tuner.wait,
{
    r.lemma_model();
    if r@.sessions.contains_key(key) && r@.sessions[key].held.contains_key(c) {
        assert(r@.sessions[key].wf(key, r@.tuner.limit()));
    }
    if deadline is Some {
        let k = choose|k: SessionKey| #[trigger]
            r@.sessions.contains_key(k) && r@.sessions[k].oldest is Some && deadline->0
                == r@.sessions[k].oldest->0 + r@.tuner.wait;
        assert(r@.sessions[k].wf(k, r@.tuner.limit()));
    }
}

/// Giving up: a flow that has not waited long enough stays as it is. One that has goes on at the
/// lowest number that it holds, or further, and the missing numbers below that are noted with the
/// moment from which it waited for them, so that how late they are can be measured. It expects no
/// number that it holds, and waits long enough for none.
pub proof fn law_gaps_are_given_up_and_noted(now: u64, key: SessionKey, c: u64)
    ensures
        forall|r: &mut Resequencer, out: Vec<Incoming>| #[trigger]
            call_ensures(Resequencer::expire, (r, now), out) && (*r).wf()
                && (*r)@.sessions.contains_key(key) ==> {
                let (before, after) = ((*r)@.sessions[key], final(r)@.sessions[key]);
                let wait = (*r)@.tuner.wait;
                &&& final(r)@.tuner == (*r)@.tuner
                &&& final(r)@.sessions.contains_key(key)
                &&& before.oldest is None || now < before.oldest->0 + wait ==> after == before
                &&& before.oldest matches Some(t) ==> (t + wait <= now ==> {
                    &&& after.next > lowest(before.held)
                    &&& before.skipped.dom().len() <= 512 && before.next <= c < lowest(before.held)
                        ==> after.skipped.contains_key(c) && after.skipped[c] == t
                })
                &&& after.last_seen == before.last_seen
                &&& after.oldest matches Some(t) ==> now < t + wait
            },
{
    assert forall|r: &mut Resequencer, out: Vec<Incoming>| #[trigger]
        call_ensures(Resequencer::expire, (r, now), out) && (*r).wf()
            && (*r)@.sessions.contains_key(key) implies {
        let (before, after) = ((*r)@.sessions[key], final(r)@.sessions[key]);
        let wait = (*r)@.tuner.wait;
        &&& final(r)@.tuner == (*r)@.tuner
        &&& final(r)@.sessions.contains_key(key)
        &&& before.oldest is None || now < before.oldest->0 + wait ==> after == before
        &&& before.oldest matches Some(t) ==> (t + wait <= now ==> {
            &&& after.next > lowest(before.held)
            &&& before.skipped.dom().len() <= 512 && before.next <= c < lowest(before.held)
                ==> after.skipped.contains_key(c) && after.skipped[c] == t
        })
        &&& after.last_seen == before.last_seen
        &&& after.oldest matches Some(t) ==> now < t + wait
    } by {
        r.lemma_model();
        let m = (*r)@;
        let s = m.sessions[key];
        assert(s.wf(key, 0));
        lemma_expired(s, key, 0, m.tuner.wait, now);
        assert(m.sessions.dom().contains(key));
        assert(final(r)@.sessions.dom().contains(key));
        if s.due(m.tuner.wait, now) {
            lemma_given_up(s, key, 0);
            let t = SessionModel { next: lowest(s.held), ..s.gap_noted() };
            let rest = s.gap_noted().released_lowest().0;
            lemma_drained(t, key, 0);
            lemma_expired_order(rest, key, m.tuner.wait, now);
            if s.skipped.dom().len() <= 512 && s.next <= c < lowest(s.held) {
                lemma_gap_len(s.next, lowest(s.held), s.oldest->0);
                let gap = Map::new(
                    |d: u64| s.next <= d < lowest(s.held),
                    |d: u64| s.oldest->0,
                );
                lemma_union_len(s.skipped, gap);
                lemma_noted_stays(rest, key, m.tuner.wait, now, s.next + 511, c);
            }
        }
    }
}

proof fn lemma_gap_len(lo: u64, hi: u64, t: u64)
    requires
        lo <= hi,
    ensures
        Map::new(|d: u64| lo <= d < hi, |d: u64| t).dom().finite(),
        Map::new(|d: u64| lo <= d < hi, |d: u64| t).dom().len() == hi - lo,
    decreases hi,
{
    let dom = Map::new(|d: u64| lo <= d < hi, |d: u64| t).dom();
    if lo < hi {
        let less = Map::new(|d: u64| lo <= d < (hi - 1) as u64, |d: u64| t).dom();
        lemma_gap_len(lo, (hi - 1) as u64, t);
        assert(dom =~= less.insert((hi - 1) as u64));
    } else {
        assert(dom =~= Set::<u64>::empty());
    }
}

proof fn lemma_union_len(a: Map<u64, u64>, b: Map<u64, u64>)
    requires
        a.dom().finite(),
        b.dom().finite(),
    ensures
        a.union_prefer_right(b).dom().finite(),
        a.union_prefer_right(b).dom().len() <= a.dom().len() + b.dom().len(),
{
    assert(a.union_prefer_right(b).dom() =~= a.dom().union(b.dom()));
    vstd::set_lib::lemma_set_disjoint_lens(a.dom().difference(b.dom()), b.dom());
    assert(a.dom().difference(b.dom()) + b.dom() =~= a.dom().union(b.dom()));
    vstd::set_lib::lemma_len_subset(a.dom().difference(b.dom()), a.dom());
}

/// What is noted stays noted while further gaps are given up, as long as there is room for all of
/// them.
proof fn lemma_noted_stays(s: SessionModel, key: SessionKey, wait: u64, now: u64, top: int, c: u64)
    requires
        s.wf(key, 0),
        s.skipped.contains_key(c),
        c < s.next,
        forall|d: u64| #[trigger] s.held.contains_key(d) ==> d <= top,
        s.held.dom() != Set::<u64>::empty() ==> s.skipped.dom().len() + (top - s.next) <= 1024,
    ensures
        s.expired(wait, now).0.skipped.contains_key(c),
        s.expired(wait, now).0.skipped[c] == s.skipped[c],
    decreases s.held.dom().len(),
{
    if s.due(wait, now) {
        lemma_given_up(s, key, 0);
        let first = lowest(s.held);
        let t = SessionModel { next: first, ..s.gap_noted() };
        let rest = s.gap_noted().released_lowest().0;
        lemma_drained(t, key, 0);
        lemma_gap_len(s.next, first, s.oldest->0);
        let gap = Map::new(|d: u64| s.next <= d < first, |d: u64| s.oldest->0);
        lemma_union_len(s.skipped, gap);
        assert forall|d: u64| #[trigger] rest.held.contains_key(d) implies d <= top by {
            lemma_drained_held(t, key);
            assert(s.held.contains_key(d));
        }
        lemma_noted_stays(rest, key, wait, now, top, c);
    }
}

/// The counts are far from their end.
pub open spec fn small(stats: ReorderStats) -> bool {
    &&& stats.passthrough < 0x8000_0000_0000_0000
    &&& stats.in_order < 0x8000_0000_0000_0000
    &&& stats.reordered < 0x8000_0000_0000_0000
    &&& stats.late < 0x8000_0000_0000_0000
    &&& stats.forced < 0x8000_0000_0000_0000
}

/// Every packet counts where it belongs: the expected one as in order, and those that followed it
/// as reordered; one behind as late; those that a jump hands out as forced. One that is held may
/// raise the most that were.
pub proof fn law_packets_are_counted_where_they_belong(packet: Incoming, now: u64)
    ensures
        forall|r: &mut Resequencer, out: Vec<Incoming>| #[trigger]
            call_ensures(Resequencer::push, (r, packet, now), out) && (*r).wf() ==> {
                let (was, now_is) = ((*r)@.stats, final(r)@.stats);
                numbering(packet) matches Some((key, c)) ==> ((*r)@.sessions.contains_key(key) && c < u64::MAX
                    && small(was) ==> ({
                    let s = (*r)@.sessions[key];
                    &&& now_is.passthrough == was.passthrough && now_is.timed_out == was.timed_out
                    &&& c == s.next ==> now_is.in_order == was.in_order + 1 && now_is.reordered
                        == was.reordered + out@.len() - 1
                    &&& c != s.next ==> now_is.in_order == was.in_order && now_is.reordered == was.reordered
                    &&& c < s.next ==> now_is.late == was.late + 1
                    &&& c >= s.next ==> now_is.late == was.late
                    &&& c > s.next + 511 ==> now_is.forced == was.forced + s.held.dom().len()
                    &&& c <= s.next + 511 ==> now_is.forced == was.forced
                    &&& s.next < c <= s.next + 511 ==> {
                        let held = final(r)@.sessions[key].held.dom().len();
                        &&& now_is.max_held >= held && now_is.max_held >= was.max_held
                        &&& now_is.max_held == held || now_is.max_held == was.max_held
                    }
                    &&& !(s.next < c <= s.next + 511) ==> now_is.max_held == was.max_held
                }))
            },
{
    assert forall|r: &mut Resequencer, out: Vec<Incoming>| #[trigger]
        call_ensures(Resequencer::push, (r, packet, now), out) && (*r).wf() implies {
        let (was, now_is) = ((*r)@.stats, final(r)@.stats);
        numbering(packet) matches Some((key, c)) ==> ((*r)@.sessions.contains_key(key) && c < u64::MAX
            && small(was) ==> ({
            let s = (*r)@.sessions[key];
            &&& now_is.passthrough == was.passthrough && now_is.timed_out == was.timed_out
            &&& c == s.next ==> now_is.in_order == was.in_order + 1 && now_is.reordered
                == was.reordered + out@.len() - 1
            &&& c != s.next ==> now_is.in_order == was.in_order && now_is.reordered == was.reordered
            &&& c < s.next ==> now_is.late == was.late + 1
            &&& c >= s.next ==> now_is.late == was.late
            &&& c > s.next + 511 ==> now_is.forced == was.forced + s.held.dom().len()
            &&& c <= s.next + 511 ==> now_is.forced == was.forced
            &&& s.next < c <= s.next + 511 ==> {
                let held = final(r)@.sessions[key].held.dom().len();
                &&& now_is.max_held >= held && now_is.max_held >= was.max_held
                &&& now_is.max_held == held || now_is.max_held == was.max_held
            }
            &&& !(s.next < c <= s.next + 511) ==> now_is.max_held == was.max_held
        }))
    } by {
        if let Some((key, c)) = numbering(packet) {
            if (*r)@.sessions.contains_key(key) && c < u64::MAX {
                r.lemma_model();
                let m = (*r)@;
                let room = choose|room: ReorderModel| #![trigger m.room_made(key, room)] {
                    &&& m.room_made(key, room)
                    &&& final(r)@ == room.pushed(key, c, packet, now).0
                    &&& out@ == room.pushed(key, c, packet, now).1
                };
                assert(room == m);
                let s = m.sessions[key];
                lemma_one_packet(m, key, c, packet, now);
                lemma_pushed_step(s, key, c, packet, now);
                law_held_packets_are_bounded(s, key, 0);
            }
        }
    }
}

/// What is given up is counted as timed out, and as nothing else.
pub proof fn law_given_up_packets_are_counted(now: u64)
    ensures
        forall|r: &mut Resequencer, out: Vec<Incoming>| #[trigger]
            call_ensures(Resequencer::expire, (r, now), out) && (*r).wf() && (*r)@.stats.timed_out
                + out@.len() <= u64::MAX ==> {
                let (was, now_is) = ((*r)@.stats, final(r)@.stats);
                &&& now_is.timed_out == was.timed_out + out@.len()
                &&& now_is == (ReorderStats { timed_out: now_is.timed_out, ..was })
            },
{
}

/// What is handed out stands behind what was handed out before, which stays: a packet without a
/// number, or one behind, alone; the expected one first; one far ahead last.
pub proof fn law_packets_are_handed_out_behind_others(packet: Incoming, now: u64)
    ensures
        forall|r: &mut Resequencer, out: &mut Vec<Incoming>| #[trigger]
            call_ensures(Resequencer::push_into, (r, packet, now, out), ()) && (*r).wf() ==> {
                let (before, after) = ((*out)@, final(out)@);
                &&& before.is_prefix_of(after)
                &&& numbering(packet) is None ==> after == before.push(packet)
                &&& numbering(packet) matches Some((key, c)) ==> ((*r)@.sessions.contains_key(key) && c
                    < u64::MAX ==> ({
                    let next = (*r)@.sessions[key].next;
                    &&& c < next ==> after == before.push(packet)
                    &&& c == next ==> after.len() > before.len() && after[before.len() as int] == packet
                    &&& next < c <= next + 511 ==> after == before
                    &&& c > next + 511 ==> after.len() > before.len() && after.last() == packet
                }))
            },
        forall|r: &mut Resequencer, out: &mut Vec<Incoming>| #[trigger]
            call_ensures(Resequencer::expire_into, (r, now, out), ()) && (*r).wf() ==> (
            *out)@.is_prefix_of(final(out)@),
{
    assert forall|r: &mut Resequencer, out: &mut Vec<Incoming>| #[trigger]
        call_ensures(Resequencer::push_into, (r, packet, now, out), ()) && (*r).wf() implies {
        let (before, after) = ((*out)@, final(out)@);
        &&& before.is_prefix_of(after)
        &&& numbering(packet) is None ==> after == before.push(packet)
        &&& numbering(packet) matches Some((key, c)) ==> ((*r)@.sessions.contains_key(key) && c
            < u64::MAX ==> ({
            let next = (*r)@.sessions[key].next;
            &&& c < next ==> after == before.push(packet)
            &&& c == next ==> after.len() > before.len() && after[before.len() as int] == packet
            &&& next < c <= next + 511 ==> after == before
            &&& c > next + 511 ==> after.len() > before.len() && after.last() == packet
        }))
    } by {
        r.lemma_model();
        let m = (*r)@;
        let (before, after) = ((*out)@, final(out)@);
        let handed = choose|handed: Seq<Incoming>| #[trigger]
            m.pushes(packet, now, final(r)@, handed) && after == before + handed;
        assert(before =~= after.take(before.len() as int));
        if let Some((key, c)) = numbering(packet) {
            if m.sessions.contains_key(key) && c < u64::MAX {
                let room = choose|room: ReorderModel| #![trigger m.room_made(key, room)] {
                    &&& m.room_made(key, room)
                    &&& final(r)@ == room.pushed(key, c, packet, now).0
                    &&& handed == room.pushed(key, c, packet, now).1
                };
                assert(room == m);
                lemma_one_packet(m, key, c, packet, now);
                let next = m.sessions[key].next;
                if c < next {
                    assert(after =~= before.push(packet));
                } else if next < c <= next + 511 {
                    assert(after =~= before);
                }
            }
        } else {
            assert(after =~= before.push(packet));
        }
    }
    assert forall|r: &mut Resequencer, out: &mut Vec<Incoming>| #[trigger]
        call_ensures(Resequencer::expire_into, (r, now, out), ()) && (*r).wf() implies (
    *out)@.is_prefix_of(final(out)@) by {
        assert((*out)@ =~= final(out)@.take((*out)@.len() as int));
    }
}

} // verus!
