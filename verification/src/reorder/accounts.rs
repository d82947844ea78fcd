//! The books of the order buffer over any number of calls: what is waited for, what the counters
//! show, and where every packet went.

use crate::multilink::Incoming;
use crate::reorder::lateness::{TunerModel, MILLI};
use crate::reorder::laws::{
    arrived, fed, law_held_packets_are_bounded, law_shuffled_window_comes_out_sorted, lemma_fed,
    window_of,
};
use crate::reorder::ring::{is_earliest, Held};
use crate::reorder::run::{
    can_step, end, handed, is_run, law_every_state_is_sound, lemma_expires_order, lemma_numbered,
    taken_in, Call, Step,
};
use crate::reorder::session::{
    counter_of, lemma_expired, numbering, SessionKey, SessionModel, MAX_GAP,
};
use crate::reorder::steps::{
    exact, held_times, lemma_expired_exact, lemma_expired_held, lemma_expired_len, lemma_expired_times,
    lemma_pushed_exact, lemma_pushed_step, lemma_pushed_times, lemma_times_add, lemma_times_one,
    lemma_times_push, times,
};
use crate::reorder::{ReorderModel, ReorderStats, MAX_SESSIONS};
use vstd::prelude::*;

verus! {

impl ReorderModel {
    /// The session `key` holds a packet with the counter `c`.
    pub open spec fn holds(self, key: SessionKey, c: u64) -> bool {
        self.sessions.contains_key(key) && self.sessions[key].held.contains_key(c)
    }

    /// What the session `key` holds under the counter `c`.
    pub open spec fn held_at(self, key: SessionKey, c: u64) -> Held {
        self.sessions[key].held[c]
    }
}

/// No number is taken in while the same number of its session is held.
pub open spec fn no_number_held_twice(start: ReorderModel, steps: Seq<Step>) -> bool
    decreases steps.len(),
{
    steps.len() == 0 || no_number_held_twice(start, steps.drop_last()) && match steps.last().call {
        Call::Push { packet, .. } => !end(start, steps.drop_last()).holds_number(packet),
        Call::Expire { .. } => true,
    }
}

/// Every session counts its wait from the earliest arrival of what it holds.
proof fn lemma_run_exact(tuner: TunerModel, steps: Seq<Step>)
    requires
        is_run(ReorderModel::initial(tuner), steps),
        no_number_held_twice(ReorderModel::initial(tuner), steps),
    ensures
        forall|k: SessionKey| #[trigger]
            end(ReorderModel::initial(tuner), steps).sessions.contains_key(k) ==> exact(
                end(ReorderModel::initial(tuner), steps).sessions[k],
            ),
    decreases steps.len(),
{
    if steps.len() > 0 {
        let m = end(ReorderModel::initial(tuner), steps.drop_last());
        let step = steps.last();
        let after = step.after;
        lemma_run_exact(tuner, steps.drop_last());
        law_every_state_is_sound(tuner, steps.drop_last());
        match step.call {
            Call::Push { packet, now } => {
                if numbering(packet) is Some {
                    let (key, c) = numbering(packet)->0;
                    let room = lemma_numbered(m, packet, now, after, step.out);
                    let s = room.session(key, c, now);
                    assert(exact(s) && !s.held.contains_key(c)) by {
                        if room.sessions.contains_key(key) {
                            assert(m.sessions.contains_key(key));
                        }
                    }
                    lemma_pushed_exact(s, key, c, packet, now);
                    assert forall|k: SessionKey| #[trigger] after.sessions.contains_key(k) implies exact(
                        after.sessions[k],
                    ) by {
                        if k != key {
                            assert(room.sessions.contains_key(k));
                        }
                    }
                }
            },
            Call::Expire { now } => {
                assert forall|k: SessionKey| #[trigger] after.sessions.contains_key(k) implies exact(
                    after.sessions[k],
                ) by {
                    assert(m.sessions.dom().contains(k));
                    assert(m.sessions.contains_key(k));
                    lemma_expired_exact(m.sessions[k], k, m.tuner.wait, now);
                }
            },
        }
    }
}

/// As long as no number is taken in while the same number of its session is held, the next
/// deadline is the earliest arrival of all packets still held, plus the wait; and there is none
/// exactly if nothing is held.
pub proof fn law_deadline_is_counted_from_the_earliest_arrival(
    tuner: TunerModel,
    steps: Seq<Step>,
    deadline: Option<u64>,
)
    requires
        is_run(ReorderModel::initial(tuner), steps),
        no_number_held_twice(ReorderModel::initial(tuner), steps),
        end(ReorderModel::initial(tuner), steps).is_due_first(deadline),
    ensures
        ({
            let m = end(ReorderModel::initial(tuner), steps);
            &&& deadline is None <==> forall|k: SessionKey, c: u64| !#[trigger] m.holds(k, c)
            &&& deadline matches Some(t) ==> {
                &&& exists|k: SessionKey, c: u64| #[trigger]
                    m.holds(k, c) && t == m.held_at(k, c).arrived + m.tuner.wait
                &&& forall|k: SessionKey, c: u64| #[trigger]
                    m.holds(k, c) ==> t <= m.held_at(k, c).arrived + m.tuner.wait
            }
        }),
{
    let m = end(ReorderModel::initial(tuner), steps);
    law_every_state_is_sound(tuner, steps);
    lemma_run_exact(tuner, steps);
    match deadline {
        None => {
            assert forall|k: SessionKey, c: u64| !#[trigger] m.holds(k, c) by {
                if m.sessions.contains_key(k) {
                    assert(m.sessions[k].wf(k, 0));
                }
            }
        },
        Some(t) => {
            let k = choose|k: SessionKey| #[trigger]
                m.sessions.contains_key(k) && m.sessions[k].oldest is Some && t
                    == m.sessions[k].oldest->0 + m.tuner.wait;
            let s = m.sessions[k];
            assert(is_earliest(s.held, s.oldest->0));
            let c = choose|c: u64| #[trigger] s.held.contains_key(c) && s.held[c].arrived == s.oldest->0;
            assert(m.holds(k, c));
            assert forall|k: SessionKey, c: u64| #[trigger] m.holds(k, c) implies t <= m.held_at(
                k,
                c,
            ).arrived + m.tuner.wait by {
                assert(m.sessions.contains_key(k));
                assert(m.sessions[k].wf(k, 0));
                assert(m.sessions[k].held.contains_key(c));
            }
        },
    }
}

/// How many packets the counters show as handed out.
pub open spec fn counted(stats: ReorderStats) -> nat {
    (stats.passthrough + stats.in_order + stats.reordered + stats.timed_out + stats.late
        + stats.forced) as nat
}

/// A counter that only grows started over.
spec fn turn(before: u64, after: u64) -> nat {
    if after < before {
        1
    } else {
        0
    }
}

/// A packet whose counter lies further ahead of the expected one than is waited for.
pub open spec fn jumps(m: ReorderModel, packet: Incoming) -> bool {
    numbering(packet) matches Some((key, c)) && m.sessions.contains_key(key) && c
        - m.sessions[key].next > MAX_GAP
}

/// How many packets jumped ahead.
pub open spec fn jumped(start: ReorderModel, steps: Seq<Step>) -> nat
    decreases steps.len(),
{
    if steps.len() == 0 {
        0
    } else {
        jumped(start, steps.drop_last()) + match steps.last().call {
            Call::Push { packet, .. } => if jumps(end(start, steps.drop_last()), packet) {
                1nat
            } else {
                0nat
            },
            Call::Expire { .. } => 0nat,
        }
    }
}

/// An expiry hands out no more than the sessions can hold.
proof fn lemma_given_up_len(m: ReorderModel, order: Seq<SessionKey>, now: u64)
    requires
        m.sound(),
        forall|i: int| 0 <= i < order.len() ==> m.sessions.contains_key(#[trigger] order[i]),
    ensures
        m.given_up(order, now).len() <= MAX_GAP * order.len(),
    decreases order.len(),
{
    if order.len() > 0 {
        let before = order.drop_last();
        let key = order.last();
        assert(order[order.len() - 1] == key);
        assert forall|i: int| 0 <= i < before.len() implies m.sessions.contains_key(#[trigger] before[i]) by {
            assert(before[i] == order[i]);
        }
        lemma_given_up_len(m, before, now);
        lemma_expired_len(m.sessions[key], key, m.tuner.wait, now);
        law_held_packets_are_bounded(m.sessions[key], key, 0);
        assert(MAX_GAP * order.len() == MAX_GAP * before.len() + MAX_GAP) by (nonlinear_arith)
            requires
                order.len() == before.len() + 1,
        ;
    }
}

proof fn lemma_expiry_len(m: ReorderModel, now: u64, after: ReorderModel, out: Seq<Incoming>)
    requires
        m.sound(),
        m.expires(now, after, out),
    ensures
        out.len() <= MAX_GAP * MAX_SESSIONS,
{
    let order = lemma_expires_order(m, now, after, out);
    lemma_given_up_len(m, order, now);
    order.unique_seq_to_set();
    assert(MAX_GAP * order.len() <= MAX_GAP * MAX_SESSIONS) by (nonlinear_arith)
        requires
            order.len() <= MAX_SESSIONS,
    ;
}

/// The statistics add up: every packet that was handed out is counted once, but for those that
/// jumped ahead, which are counted nowhere. `turns` is how often the counters, of 64 bits each,
/// started over; they have not, where no more packets were handed out than a counter can show. And
/// the wait that the statistics show is the current one.
pub proof fn law_statistics_add_up(tuner: TunerModel, steps: Seq<Step>) -> (turns: nat)
    requires
        is_run(ReorderModel::initial(tuner), steps),
    ensures
        counted(end(ReorderModel::initial(tuner), steps).stats) + jumped(
            ReorderModel::initial(tuner),
            steps,
        ) + 0x1_0000_0000_0000_0000 * turns == handed(steps).len(),
        handed(steps).len() <= u64::MAX ==> turns == 0,
        end(ReorderModel::initial(tuner), steps).stats.wait_ms == end(
            ReorderModel::initial(tuner),
            steps,
        ).tuner.wait / MILLI,
    decreases steps.len(),
{
    law_every_state_is_sound(tuner, steps);
    if steps.len() == 0 {
        0
    } else {
        let m = end(ReorderModel::initial(tuner), steps.drop_last());
        let step = steps.last();
        let before = law_statistics_add_up(tuner, steps.drop_last());
        law_every_state_is_sound(tuner, steps.drop_last());
        match step.call {
            Call::Push { packet, now } => {
                if numbering(packet) is Some {
                    let (key, c) = numbering(packet)->0;
                    let room = lemma_numbered(m, packet, now, step.after, step.out);
                    lemma_pushed_step(room.session(key, c, now), key, c, packet, now);
                }
            },
            Call::Expire { now } => {
                lemma_expiry_len(m, now, step.after, step.out);
            },
        }
        let (a, b) = (m.stats, step.after.stats);
        let more = turn(a.passthrough, b.passthrough) + turn(a.in_order, b.in_order) + turn(
            a.reordered,
            b.reordered,
        ) + turn(a.timed_out, b.timed_out) + turn(a.late, b.late) + turn(a.forced, b.forced);
        before + more
    }
}

/// How often the buffer holds the packet.
pub open spec fn waiting(m: ReorderModel, p: Incoming) -> nat {
    match numbering(p) {
        Some((key, _)) => if m.sessions.contains_key(key) {
            held_times(m.sessions[key], key, p)
        } else {
            0
        },
        None => 0,
    }
}

/// No number of a session occurs twice.
pub open spec fn no_number_twice(packets: Seq<Incoming>) -> bool {
    forall|i: int, j: int|
        0 <= i < j < packets.len() && numbering(#[trigger] packets[i]) is Some ==> numbering(
            packets[i],
        ) != numbering(#[trigger] packets[j])
}

/// All numbered packets are of these sessions.
pub open spec fn all_of(packets: Seq<Incoming>, keys: Set<SessionKey>) -> bool {
    forall|i: int|
        0 <= i < packets.len() ==> (numbering(#[trigger] packets[i]) matches Some((key, _))
            ==> keys.contains(key))
}

/// The moment of a call.
pub open spec fn moment(call: Call) -> u64 {
    match call {
        Call::Push { now, .. } => now,
        Call::Expire { now } => now,
    }
}

/// No call comes after `t`.
pub open spec fn until(steps: Seq<Step>, t: u64) -> bool {
    forall|i: int| 0 <= i < steps.len() ==> moment((#[trigger] steps[i]).call) <= t
}

/// What sessions hand out one after another: each packet leaves the one that held it.
proof fn lemma_given_up_times(m: ReorderModel, order: Seq<SessionKey>, now: u64, p: Incoming)
    requires
        m.sound(),
        order.no_duplicates(),
        forall|i: int| 0 <= i < order.len() ==> m.sessions.contains_key(#[trigger] order[i]),
    ensures
        ({
            let out = times(m.given_up(order, now), p);
            match numbering(p) {
                Some((key, _)) => if order.contains(key) {
                    out + held_times(m.sessions[key].expired(m.tuner.wait, now).0, key, p)
                        == held_times(m.sessions[key], key, p)
                } else {
                    out == 0
                },
                None => out == 0,
            }
        }),
    decreases order.len(),
{
    lemma_times_one(p, p);
    if order.len() > 0 {
        let before = order.drop_last();
        let last = order.last();
        assert(order[order.len() - 1] == last);
        assert(m.sessions.contains_key(last));
        assert forall|i: int| 0 <= i < before.len() implies m.sessions.contains_key(#[trigger] before[i]) by {
            assert(before[i] == order[i]);
        }
        lemma_given_up_times(m, before, now, p);
        lemma_expired_times(m.sessions[last], last, m.tuner.wait, now, p);
        lemma_times_add(
            m.given_up(before, now),
            m.sessions[last].expired(m.tuner.wait, now).1,
            p,
        );
        assert(order =~= before.push(last));
        if let Some((key, _)) = numbering(p) {
            if before.contains(key) {
                let i = choose|i: int| 0 <= i < before.len() && before[i] == key;
                assert(order[i] == key);
                assert(order[i] != order[order.len() - 1]);
            } else if order.contains(key) {
                let i = choose|i: int| 0 <= i < order.len() && order[i] == key;
                if i < before.len() {
                    assert(before[i] == key);
                }
            }
        }
    }
}

/// What is held was taken in, and each packet was handed out or is held as often as it was taken
/// in.
proof fn lemma_whereabouts(tuner: TunerModel, steps: Seq<Step>, keys: Set<SessionKey>, t: u64)
    requires
        is_run(ReorderModel::initial(tuner), steps),
        no_number_twice(taken_in(steps)),
        keys.finite(),
        keys.len() <= MAX_SESSIONS,
        all_of(taken_in(steps), keys),
        until(steps, t),
    ensures
        ({
            let m = end(ReorderModel::initial(tuner), steps);
            &&& m.sessions.dom().subset_of(keys)
            &&& forall|k: SessionKey, c: u64| #[trigger]
                m.holds(k, c) ==> taken_in(steps).contains(m.held_at(k, c).packet) && m.held_at(
                    k,
                    c,
                ).arrived <= t
            &&& forall|p: Incoming|
                times(handed(steps), p) + #[trigger] waiting(m, p) == times(taken_in(steps), p)
        }),
    decreases steps.len(),
{
    let m = end(ReorderModel::initial(tuner), steps);
    if steps.len() == 0 {
        assert forall|p: Incoming| times(handed(steps), p) + #[trigger] waiting(m, p) == times(
            taken_in(steps),
            p,
        ) by {
            lemma_times_one(p, p);
        }
    } else {
        let steps0 = steps.drop_last();
        let m0 = end(ReorderModel::initial(tuner), steps0);
        let step = steps.last();
        let packets0 = taken_in(steps0);
        let packets = taken_in(steps);
        assert forall|i: int| 0 <= i < packets0.len() implies #[trigger] packets0[i] == packets[i] by {}
        assert(no_number_twice(packets0));
        assert(all_of(packets0, keys));
        assert forall|i: int| 0 <= i < steps0.len() implies moment((#[trigger] steps0[i]).call) <= t by {
            assert(steps0[i] == steps[i]);
        }
        assert(steps[steps.len() - 1] == step);
        lemma_whereabouts(tuner, steps0, keys, t);
        law_every_state_is_sound(tuner, steps0);
        match step.call {
            Call::Push { packet, now } => {
                assert(packets == packets0.push(packet));
                assert(packets[packets.len() - 1] == packet);
                if numbering(packet) is Some {
                    lemma_push_whereabouts(m0, step, packets0, handed(steps0), keys, t);
                } else {
                    assert forall|p: Incoming| times(handed(steps), p) + #[trigger] waiting(m, p)
                        == times(packets, p) by {
                        lemma_times_add(handed(steps0), step.out, p);
                        lemma_times_one(packet, p);
                        lemma_times_push(packets0, packet, p);
                        assert(waiting(m0, p) == waiting(m, p));
                    }
                    assert forall|k: SessionKey, c: u64| #[trigger] m.holds(k, c) implies packets.contains(
                        m.held_at(k, c).packet,
                    ) && m.held_at(k, c).arrived <= t by {
                        assert(m0.holds(k, c));
                        lemma_still_among(packets0, packet, m0.held_at(k, c).packet);
                    }
                }
            },
            Call::Expire { now } => {
                let order = lemma_expires_order(m0, now, m, step.out);
                assert forall|p: Incoming| times(handed(steps), p) + #[trigger] waiting(m, p)
                    == times(packets, p) by {
                    lemma_times_add(handed(steps0), step.out, p);
                    lemma_given_up_times(m0, order, now, p);
                    assert(times(handed(steps0), p) + waiting(m0, p) == times(packets, p));
                    if let Some((key, _)) = numbering(p) {
                        assert(order.contains(key) <==> order.to_set().contains(key));
                        assert(m.sessions.dom().contains(key) <==> m0.sessions.dom().contains(key));
                        if m0.sessions.contains_key(key) {
                            assert(m.sessions[key] == m0.sessions[key].expired(m0.tuner.wait, now).0);
                        }
                    }
                }
                assert forall|k: SessionKey, c: u64| #[trigger] m.holds(k, c) implies packets.contains(
                    m.held_at(k, c).packet,
                ) && m.held_at(k, c).arrived <= t by {
                    assert(m0.sessions.dom().contains(k));
                    assert(m0.sessions.contains_key(k));
                    lemma_expired_held(m0.sessions[k], k, m0.tuner.wait, now);
                    assert(m.sessions[k].held.contains_key(c));
                    assert(m0.holds(k, c));
                }
            },
        }
    }
}

proof fn lemma_still_among(packets: Seq<Incoming>, packet: Incoming, p: Incoming)
    requires
        packets.contains(p),
    ensures
        packets.push(packet).contains(p),
{
    let i = choose|i: int| 0 <= i < packets.len() && packets[i] == p;
    assert(packets.push(packet)[i] == p);
}

/// The same for one numbered packet more.
proof fn lemma_push_whereabouts(
    m: ReorderModel,
    step: Step,
    packets: Seq<Incoming>,
    out: Seq<Incoming>,
    keys: Set<SessionKey>,
    t: u64,
)
    requires
        m.sound(),
        can_step(m, step),
        step.call is Push,
        moment(step.call) <= t,
        numbering(step.call->packet) is Some,
        no_number_twice(packets.push(step.call->packet)),
        keys.finite(),
        keys.len() <= MAX_SESSIONS,
        keys.contains((numbering(step.call->packet)->0).0),
        m.sessions.dom().subset_of(keys),
        forall|k: SessionKey, c: u64| #[trigger]
            m.holds(k, c) ==> packets.contains(m.held_at(k, c).packet) && m.held_at(k, c).arrived
                <= t,
        forall|p: Incoming| times(out, p) + #[trigger] waiting(m, p) == times(packets, p),
    ensures
        ({
            let packet = step.call->packet;
            &&& step.after.sessions.dom().subset_of(keys)
            &&& forall|k: SessionKey, c: u64| #[trigger]
                step.after.holds(k, c) ==> packets.push(packet).contains(
                    step.after.held_at(k, c).packet,
                ) && step.after.held_at(k, c).arrived <= t
            &&& forall|p: Incoming|
                times(out + step.out, p) + #[trigger] waiting(step.after, p) == times(
                    packets.push(packet),
                    p,
                )
        }),
{
    let packet = step.call->packet;
    let now = moment(step.call);
    let after = step.after;
    let (key, c) = numbering(packet)->0;
    let room = lemma_numbered(m, packet, now, after, step.out);
    if !m.sessions.contains_key(key) {
        assert(m.sessions.dom().subset_of(keys.remove(key)));
        vstd::set_lib::lemma_len_subset(m.sessions.dom(), keys.remove(key));
    }
    assert(room == m);
    let s = m.session(key, c, now);
    assert(!s.held.contains_key(c)) by {
        if m.holds(key, c) {
            let q = m.held_at(key, c).packet;
            assert(m.sessions[key].wf(key, 0));
            assert(m.sessions[key].held.contains_key(c));
            assert(numbering(q) == Some((key, c)));
            let i = choose|i: int| 0 <= i < packets.len() && packets[i] == q;
            let all = packets.push(packet);
            assert(all[i] == q && all[packets.len() as int] == packet);
        }
    }
    lemma_pushed_step(s, key, c, packet, now);
    assert forall|k: SessionKey, d: u64| #[trigger] after.holds(k, d) implies packets.push(packet).contains(
        after.held_at(k, d).packet,
    ) && after.held_at(k, d).arrived <= t by {
        if m.holds(k, d) && after.held_at(k, d) == m.held_at(k, d) {
            lemma_still_among(packets, packet, m.held_at(k, d).packet);
        } else {
            assert(after.sessions[k].held.contains_key(d));
            assert(packets.push(packet)[packets.len() as int] == packet);
        }
    }
    assert forall|p: Incoming| times(out + step.out, p) + #[trigger] waiting(after, p) == times(
        packets.push(packet),
        p,
    ) by {
        lemma_times_add(out, step.out, p);
        lemma_times_push(packets, packet, p);
        lemma_pushed_times(s, key, c, packet, now, p);
        assert(times(out, p) + waiting(m, p) == times(packets, p));
    }
}

/// Nothing is lost, doubled or altered: where at most [`MAX_SESSIONS`] sessions send, and none
/// sends a number twice, then once the last wait is over and the gaps are given up, the packets
/// handed out are those taken in, each as often, and no deadline is left.
pub proof fn law_everything_comes_out(
    tuner: TunerModel,
    steps: Seq<Step>,
    keys: Set<SessionKey>,
    t: u64,
    now: u64,
    after: ReorderModel,
    out: Seq<Incoming>,
)
    requires
        is_run(ReorderModel::initial(tuner), steps),
        no_number_twice(taken_in(steps)),
        keys.finite(),
        keys.len() <= MAX_SESSIONS,
        all_of(taken_in(steps), keys),
        until(steps, t),
        end(ReorderModel::initial(tuner), steps).expires(now, after, out),
        t + end(ReorderModel::initial(tuner), steps).tuner.wait <= now,
    ensures
        (handed(steps) + out).to_multiset() == taken_in(steps).to_multiset(),
        after.is_due_first(None),
{
    let m = end(ReorderModel::initial(tuner), steps);
    let step = Step { call: Call::Expire { now }, after, out };
    let all = steps.push(step);
    assert(all.drop_last() =~= steps);
    assert(is_run(ReorderModel::initial(tuner), all));
    assert(handed(all) == handed(steps) + out);
    assert(taken_in(all) == taken_in(steps));
    assert forall|i: int| 0 <= i < all.len() implies moment((#[trigger] all[i]).call) <= now by {
        if i < steps.len() {
            assert(all[i] == steps[i]);
        }
    }
    law_every_state_is_sound(tuner, steps);
    lemma_whereabouts(tuner, steps, keys, t);
    lemma_whereabouts(tuner, all, keys, now);
    assert forall|k: SessionKey| #[trigger] after.sessions.contains_key(k) implies after.sessions[k].oldest is None by {
        assert(m.sessions.dom().contains(k));
        assert(m.sessions.contains_key(k));
        let s = m.sessions[k];
        let e = after.sessions[k];
        lemma_expired(s, k, 0, m.tuner.wait, now);
        lemma_expired_held(s, k, m.tuner.wait, now);
        assert(e.wf(k, 0));
        if e.oldest is Some {
            let c = e.held.dom().choose();
            assert(e.held.dom().contains(c)) by {
                assert(e.held.dom() != Set::<u64>::empty());
                if forall|d: u64| !e.held.dom().contains(d) {
                    assert(e.held.dom() =~= Set::<u64>::empty());
                }
            }
            assert(e.held.contains_key(c));
            assert(m.holds(k, c));
            assert(m.held_at(k, c).arrived <= t);
        }
    }
    assert forall|p: Incoming| (handed(steps) + out).to_multiset().count(p) == #[trigger] taken_in(
        steps,
    ).to_multiset().count(p) by {
        assert(times(handed(all), p) + waiting(after, p) == times(taken_in(all), p));
        if let Some((key, c)) = numbering(p) {
            if after.sessions.contains_key(key) {
                lemma_expired(m.sessions[key], key, 0, m.tuner.wait, now);
                assert(after.sessions[key].wf(key, 0));
                assert(!after.sessions[key].held.contains_key(c));
            }
        }
    }
    assert((handed(steps) + out).to_multiset() =~= taken_in(steps).to_multiset());
}

/// Every call takes a packet in.
pub open spec fn only_pushes(steps: Seq<Step>) -> bool {
    forall|i: int| 0 <= i < steps.len() ==> (#[trigger] steps[i]).call is Push
}

/// A part of a window of one session, its first number first: the session is the only one, it
/// goes on as if it was fed alone, and nothing is late, timed out or forced.
proof fn lemma_window_run(
    tuner: TunerModel,
    steps: Seq<Step>,
    key: SessionKey,
    first: u64,
    n: nat,
    moments: Seq<u64>,
)
    requires
        is_run(ReorderModel::initial(tuner), steps),
        only_pushes(steps),
        n <= MAX_GAP + 1,
        first + n <= u64::MAX,
        window_of(taken_in(steps), key, first, n),
        steps.len() > 0 ==> counter_of(taken_in(steps)[0]) == first,
        0 < moments.len(),
        steps.len() <= moments.len(),
        forall|i: int| 0 <= i < steps.len() ==> moments[i] == moment((#[trigger] steps[i]).call),
    ensures
        ({
            let m = end(ReorderModel::initial(tuner), steps);
            let f = fed(SessionModel::fresh(first, moments[0]), taken_in(steps), moments);
            &&& taken_in(steps).len() == steps.len()
            &&& handed(steps) == f.1
            &&& steps.len() == 0 ==> m.sessions == Map::<SessionKey, SessionModel>::empty()
            &&& steps.len() > 0 ==> m.sessions == Map::<SessionKey, SessionModel>::empty().insert(
                key,
                f.0,
            )
            &&& m.stats.passthrough == 0 && m.stats.late == 0 && m.stats.timed_out == 0
                && m.stats.forced == 0
            &&& jumped(ReorderModel::initial(tuner), steps) == 0
        }),
    decreases steps.len(),
{
    if steps.len() > 0 {
        let steps0 = steps.drop_last();
        let packets0 = taken_in(steps0);
        let packets = taken_in(steps);
        let step = steps.last();
        assert(steps[steps.len() - 1] == step);
        let packet = step.call->packet;
        let now = moment(step.call);
        assert(packets == packets0.push(packet));
        assert(packets.drop_last() =~= packets0);
        assert(packets[packets.len() - 1] == packet);
        assert forall|i: int| 0 <= i < packets0.len() implies #[trigger] packets0[i] == packets[i] by {}
        assert forall|i: int| 0 <= i < steps0.len() implies #[trigger] steps0[i] == steps[i] by {}
        assert(window_of(packets0, key, first, n));
        assert(steps0.len() > 0 ==> taken_in(steps0).len() > 0) by {
            if steps0.len() > 0 {
                assert(steps0[steps0.len() - 1].call is Push);
            }
        }
        lemma_window_run(tuner, steps0, key, first, n, moments);
        law_every_state_is_sound(tuner, steps0);
        let m = end(ReorderModel::initial(tuner), steps0);
        let fresh = SessionModel::fresh(first, moments[0]);
        let s = fed(fresh, packets0, moments).0;
        assert(fresh.held.dom() =~= Set::<u64>::empty());
        assert(fresh.wf(key, 0));
        lemma_fed(fresh, key, 0, packets0, n, moments);
        let c = counter_of(packet);
        assert(numbering(packet) == Some((key, c)));
        assert(!arrived(packets0, c)) by {
            if arrived(packets0, c) {
                let i = choose|i: int| 0 <= i < packets0.len() && counter_of(#[trigger] packets0[i]) == c;
                assert(counter_of(packets[i]) != counter_of(packets[packets.len() - 1]));
            }
        }
        assert(s.next <= c);
        assert(m.sessions.dom().len() < MAX_SESSIONS) by {
            assert(m.sessions.dom().subset_of(Set::<SessionKey>::empty().insert(key)));
            vstd::set_lib::lemma_len_subset(
                m.sessions.dom(),
                Set::<SessionKey>::empty().insert(key),
            );
        }
        let room = lemma_numbered(m, packet, now, step.after, step.out);
        assert(room.session(key, c, now) == s);
        lemma_pushed_step(s, key, c, packet, now);
        assert(step.after.sessions =~= Map::<SessionKey, SessionModel>::empty().insert(
            key,
            s.pushed(c, packet, now).0,
        ));
    }
}

/// A window of packets of one session that arrives shuffled, its first number first, at whatever
/// times: the buffer hands the packets out in the order of their numbers, none is missing and none
/// comes twice, and nothing is waited for any more. None counts as late, timed out or forced.
pub proof fn law_shuffled_window_is_handed_out_in_order(
    tuner: TunerModel,
    steps: Seq<Step>,
    key: SessionKey,
    first: u64,
)
    requires
        is_run(ReorderModel::initial(tuner), steps),
        only_pushes(steps),
        0 < steps.len() <= MAX_GAP + 1,
        first + steps.len() <= u64::MAX,
        window_of(taken_in(steps), key, first, steps.len()),
        counter_of(taken_in(steps)[0]) == first,
        forall|c: u64|
            first <= c < first + steps.len() ==> #[trigger] arrived(taken_in(steps), c),
    ensures
        handed(steps).len() == steps.len(),
        forall|i: int|
            0 <= i < handed(steps).len() ==> numbering(#[trigger] handed(steps)[i]) == Some(
                (key, (first + i) as u64),
            ),
        end(ReorderModel::initial(tuner), steps).is_due_first(None),
        ({
            let stats = end(ReorderModel::initial(tuner), steps).stats;
            &&& stats.late == 0 && stats.timed_out == 0 && stats.forced == 0
            &&& stats.in_order + stats.reordered == steps.len()
        }),
{
    let moments = Seq::new(steps.len(), |i: int| moment(steps[i].call));
    let m = end(ReorderModel::initial(tuner), steps);
    let packets = taken_in(steps);
    let fresh = SessionModel::fresh(first, moments[0]);
    assert(fresh.held.dom() =~= Set::<u64>::empty());
    assert(fresh.wf(key, 0));
    lemma_window_run(tuner, steps, key, first, steps.len(), moments);
    lemma_fed(fresh, key, 0, packets, packets.len(), moments);
    law_shuffled_window_comes_out_sorted(fresh, key, 0, packets, moments);
    let _turns = law_statistics_add_up(tuner, steps);
    assert forall|k: SessionKey| #[trigger] m.sessions.contains_key(k) implies m.sessions[k].oldest is None by {}
}

} // verus!
