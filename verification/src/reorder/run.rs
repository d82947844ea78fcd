//! What the order buffer promises over any number of calls.

use crate::multilink::Incoming;
use crate::reorder::lateness::{clamp_wait, TunerModel, MAX_WAIT, MIN_WAIT};
use crate::reorder::session::{lemma_expired, numbering, SessionKey, MAX_GAP};
use crate::reorder::steps::{lemma_expired_order, lemma_pushed_step};
use crate::reorder::{ReorderModel, ReorderStats, MAX_SESSIONS};
use vstd::prelude::*;

verus! {

/// A call of the buffer.
pub enum Call {
    /// A packet is taken in.
    Push { packet: Incoming, now: u64 },
    /// Gaps whose wait is over are given up.
    Expire { now: u64 },
}

/// A call, the buffer after it, and what it handed out.
pub struct Step {
    pub call: Call,
    pub after: ReorderModel,
    pub out: Seq<Incoming>,
}

/// The number of a packet has a successor.
pub open spec fn countable(packet: Incoming) -> bool {
    packet.order matches Some((_, seq)) ==> seq < u64::MAX
}

/// The buffer can take the step.
pub open spec fn can_step(before: ReorderModel, step: Step) -> bool {
    match step.call {
        Call::Push { packet, now } => countable(packet) && before.pushes(
            packet,
            now,
            step.after,
            step.out,
        ),
        Call::Expire { now } => before.expires(now, step.after, step.out),
    }
}

/// The buffer after the steps.
pub open spec fn end(start: ReorderModel, steps: Seq<Step>) -> ReorderModel {
    if steps.len() == 0 {
        start
    } else {
        steps.last().after
    }
}

/// Steps that the buffer can take one after the other.
pub open spec fn is_run(start: ReorderModel, steps: Seq<Step>) -> bool
    decreases steps.len(),
{
    steps.len() == 0 || is_run(start, steps.drop_last()) && can_step(
        end(start, steps.drop_last()),
        steps.last(),
    )
}

/// All that was handed out.
pub open spec fn handed(steps: Seq<Step>) -> Seq<Incoming>
    decreases steps.len(),
{
    if steps.len() == 0 {
        Seq::empty()
    } else {
        handed(steps.drop_last()) + steps.last().out
    }
}

/// All that was taken in.
pub open spec fn taken_in(steps: Seq<Step>) -> Seq<Incoming>
    decreases steps.len(),
{
    if steps.len() == 0 {
        Seq::empty()
    } else {
        match steps.last().call {
            Call::Push { packet, .. } => taken_in(steps.drop_last()).push(packet),
            Call::Expire { .. } => taken_in(steps.drop_last()),
        }
    }
}

impl ReorderModel {
    /// The session of the packet holds its number already.
    pub open spec fn holds_number(self, packet: Incoming) -> bool {
        numbering(packet) matches Some((key, c)) && self.sessions.contains_key(key)
            && self.sessions[key].held.contains_key(c)
    }
}

/// A numbered packet: the room that was made for it, and what becomes of its session.
pub proof fn lemma_numbered(
    m: ReorderModel,
    packet: Incoming,
    now: u64,
    after: ReorderModel,
    out: Seq<Incoming>,
) -> (room: ReorderModel)
    requires
        m.sound(),
        numbering(packet) is Some,
        countable(packet),
        m.pushes(packet, now, after, out),
    ensures
        ({
            let (key, c) = numbering(packet)->0;
            let s = room.session(key, c, now);
            &&& m.room_made(key, room)
            &&& room.sound()
            &&& room.stats == m.stats
            &&& room.tuner == m.tuner
            &&& m.sessions.contains_key(key) ==> room == m
            &&& m.sessions.dom().len() < MAX_SESSIONS ==> room == m
            &&& room.sessions.contains_key(key) <==> m.sessions.contains_key(key)
            &&& forall|k: SessionKey| #[trigger]
                room.sessions.contains_key(k) ==> m.sessions.contains_key(k) && room.sessions[k]
                    == m.sessions[k]
            &&& c < u64::MAX
            &&& s.wf(key, 0)
            &&& after == room.pushed(key, c, packet, now).0
            &&& out == s.pushed(c, packet, now).1
            &&& after.sessions == room.sessions.insert(key, s.pushed(c, packet, now).0)
            &&& after.sound()
        }),
{
    let (key, c) = numbering(packet)->0;
    let room = choose|room: ReorderModel|
        #![trigger m.room_made(key, room)]
        {
            &&& m.room_made(key, room)
            &&& after == room.pushed(key, c, packet, now).0
            &&& out == room.pushed(key, c, packet, now).1
        };
    let s = room.session(key, c, now);
    if m.sessions.dom().len() >= MAX_SESSIONS && !m.sessions.contains_key(key) {
        let victim = choose|victim: SessionKey|
            #![trigger m.most_silent(victim)]
            m.most_silent(victim) && room == (ReorderModel {
                sessions: m.sessions.remove(victim),
                ..m
            });
        assert(room.sessions.dom() =~= m.sessions.dom().remove(victim));
        assert(m.sessions.dom().contains(victim));
    }
    lemma_pushed_step(s, key, c, packet, now);
    assert(after.sessions.dom() =~= room.sessions.dom().insert(key));
    assert forall|k: SessionKey| #[trigger] after.sessions.contains_key(k) implies after.sessions[k].wf(k, 0) by {
        if k != key {
            assert(room.sessions.contains_key(k));
        }
    }
    room
}

/// Giving gaps up leaves the buffer sound.
proof fn lemma_expires_sound(m: ReorderModel, now: u64, after: ReorderModel, out: Seq<Incoming>)
    requires
        m.sound(),
        m.expires(now, after, out),
    ensures
        after.sound(),
{
    assert forall|k: SessionKey| #[trigger] after.sessions.contains_key(k) implies after.sessions[k].wf(k, 0) by {
        assert(m.sessions.dom().contains(k));
        assert(m.sessions.contains_key(k));
        lemma_expired(m.sessions[k], k, 0, m.tuner.wait, now);
    }
}

/// Every step leaves the buffer sound.
proof fn lemma_step_sound(m: ReorderModel, step: Step)
    requires
        m.sound(),
        can_step(m, step),
    ensures
        step.after.sound(),
{
    match step.call {
        Call::Push { packet, now } => {
            if numbering(packet) is Some {
                lemma_numbered(m, packet, now, step.after, step.out);
            }
        },
        Call::Expire { now } => {
            lemma_expires_sound(m, now, step.after, step.out);
        },
    }
}

/// At any time the sessions are in order: what a session holds lies ahead of the counter that it
/// expects, at most [`MAX_GAP`] away, each under its own number; and the statistics never show
/// more held packets than that.
pub proof fn law_every_state_is_sound(tuner: TunerModel, steps: Seq<Step>)
    requires
        is_run(ReorderModel::initial(tuner), steps),
    ensures
        end(ReorderModel::initial(tuner), steps).sound(),
    decreases steps.len(),
{
    if steps.len() > 0 {
        law_every_state_is_sound(tuner, steps.drop_last());
        lemma_step_sound(end(ReorderModel::initial(tuner), steps.drop_last()), steps.last());
    }
}

/// The most packets that were held at a time never fall, and never exceed what a session can
/// hold.
pub proof fn law_most_held_never_falls(tuner: TunerModel, steps: Seq<Step>)
    requires
        is_run(ReorderModel::initial(tuner), steps),
    ensures
        end(ReorderModel::initial(tuner), steps).stats.max_held <= MAX_GAP,
        steps.len() > 0 ==> end(ReorderModel::initial(tuner), steps.drop_last()).stats.max_held
            <= end(ReorderModel::initial(tuner), steps).stats.max_held,
{
    law_every_state_is_sound(tuner, steps);
    if steps.len() > 0 {
        law_every_state_is_sound(tuner, steps.drop_last());
        let m = end(ReorderModel::initial(tuner), steps.drop_last());
        if let Call::Push { packet, now } = steps.last().call {
            if numbering(packet) is Some {
                lemma_numbered(m, packet, now, steps.last().after, steps.last().out);
            }
        }
    }
}

/// A packet without a number passes at once and alone; of the buffer only the count of such
/// packets changes.
pub proof fn law_unnumbered_packets_pass_at_once(
    m: ReorderModel,
    packet: Incoming,
    now: u64,
    after: ReorderModel,
    out: Seq<Incoming>,
)
    requires
        packet.order is None,
        m.pushes(packet, now, after, out),
    ensures
        out == seq![packet],
        after.tuner == m.tuner,
        after.sessions == m.sessions,
        after.stats == (ReorderStats {
            passthrough: m.stats.passthrough.wrapping_add(1),
            ..m.stats
        }),
        forall|deadline: Option<u64>|
            m.is_due_first(deadline) <==> #[trigger] after.is_due_first(deadline),
{
}

/// A packet whose number lies behind the counter that its session expects is never withheld: it
/// passes at once and alone, counts as late and as nothing else, and what is held stays held.
pub proof fn law_late_packets_are_never_withheld(
    m: ReorderModel,
    packet: Incoming,
    now: u64,
    after: ReorderModel,
    out: Seq<Incoming>,
)
    requires
        m.pushes(packet, now, after, out),
        numbering(packet) is Some,
        m.sessions.contains_key((numbering(packet)->0).0),
        (numbering(packet)->0).1 < m.sessions[(numbering(packet)->0).0].next,
    ensures
        out == seq![packet],
        after.stats == (ReorderStats {
            late: m.stats.late.wrapping_add(1),
            wait_ms: after.stats.wait_ms,
            ..m.stats
        }),
        after.sessions.dom() == m.sessions.dom(),
        forall|k: SessionKey| #[trigger]
            m.sessions.contains_key(k) ==> {
                &&& after.sessions[k].held == m.sessions[k].held
                &&& after.sessions[k].oldest == m.sessions[k].oldest
                &&& after.sessions[k].next == m.sessions[k].next
            },
{
    let (key, c) = numbering(packet)->0;
    let room = choose|room: ReorderModel|
        #![trigger m.room_made(key, room)]
        {
            &&& m.room_made(key, room)
            &&& after == room.pushed(key, c, packet, now).0
            &&& out == room.pushed(key, c, packet, now).1
        };
    assert(room == m);
    assert(after.sessions.dom() =~= m.sessions.dom());
}

/// What was handed out of a session lies behind the counter that the session expects afterwards,
/// and that counter never falls while the session is followed: what comes later under such a
/// number, or a lower one, is late.
pub proof fn law_released_numbers_stay_behind(m: ReorderModel, step: Step, key: SessionKey)
    requires
        m.sound(),
        can_step(m, step),
    ensures
        forall|i: int|
            0 <= i < step.out.len() ==> (numbering(#[trigger] step.out[i]) matches Some((k, c)) ==> {
                &&& step.after.sessions.contains_key(k)
                &&& c < step.after.sessions[k].next
            }),
        m.sessions.contains_key(key) && step.after.sessions.contains_key(key)
            ==> m.sessions[key].next <= step.after.sessions[key].next,
{
    let after = step.after;
    match step.call {
        Call::Push { packet, now } => {
            if numbering(packet) is Some {
                let room = lemma_numbered(m, packet, now, after, step.out);
                let (k, c) = numbering(packet)->0;
                lemma_pushed_step(room.session(k, c, now), k, c, packet, now);
                if key != k && after.sessions.contains_key(key) {
                    assert(room.sessions.contains_key(key));
                }
            }
        },
        Call::Expire { now } => {
            let order = lemma_expires_order(m, now, after, step.out);
            assert forall|i: int| 0 <= i < step.out.len() implies (numbering(#[trigger] step.out[i]) matches Some((k, c)) ==> {
                &&& after.sessions.contains_key(k)
                &&& c < after.sessions[k].next
            }) by {
                let (k, c) = numbering(step.out[i])->0;
                assert(m.sessions.dom().contains(k));
                assert(after.sessions.dom().contains(k));
            }
            if m.sessions.contains_key(key) {
                lemma_expired_order(m.sessions[key], key, m.tuner.wait, now);
            }
        },
    }
}

/// The packets that sessions hand out one after another: of each session in ascending order and
/// behind the counter that it expects afterwards; some exactly if a wait is over.
proof fn lemma_given_up_order(m: ReorderModel, order: Seq<SessionKey>, now: u64)
    requires
        m.sound(),
        order.no_duplicates(),
        forall|i: int| 0 <= i < order.len() ==> m.sessions.contains_key(#[trigger] order[i]),
    ensures
        ({
            let out = m.given_up(order, now);
            &&& forall|i: int| 0 <= i < out.len() ==> {
                &&& numbering(#[trigger] out[i]) matches Some((k, c))
                &&& order.contains(k)
                &&& m.sessions[k].next < c < m.sessions[k].expired(m.tuner.wait, now).0.next
            }
            &&& forall|i: int, j: int|
                0 <= i < j < out.len() && (numbering(#[trigger] out[i])->0).0 == (numbering(
                    #[trigger] out[j],
                )->0).0 ==> (numbering(out[i])->0).1 < (numbering(out[j])->0).1
            &&& out.len() > 0 <==> exists|i: int|
                0 <= i < order.len() && m.sessions[#[trigger] order[i]].due(m.tuner.wait, now)
        }),
    decreases order.len(),
{
    if order.len() > 0 {
        let before = order.drop_last();
        let key = order.last();
        assert(order[order.len() - 1] == key);
        assert(m.sessions.contains_key(key));
        assert forall|i: int| 0 <= i < before.len() implies m.sessions.contains_key(#[trigger] before[i]) by {
            assert(before[i] == order[i]);
        }
        lemma_given_up_order(m, before, now);
        lemma_expired_order(m.sessions[key], key, m.tuner.wait, now);
        let first = m.given_up(before, now);
        let rest = m.sessions[key].expired(m.tuner.wait, now).1;
        let out = m.given_up(order, now);
        assert(!before.contains(key)) by {
            if before.contains(key) {
                let i = choose|i: int| 0 <= i < before.len() && before[i] == key;
                assert(order[i] == order[order.len() - 1]);
            }
        }
        assert forall|i: int| 0 <= i < out.len() implies {
            &&& numbering(#[trigger] out[i]) matches Some((k, c))
            &&& order.contains(k)
            &&& m.sessions[k].next < c < m.sessions[k].expired(m.tuner.wait, now).0.next
        } by {
            if i < first.len() {
                assert(out[i] == first[i]);
                let k = (numbering(first[i])->0).0;
                let n = choose|n: int| 0 <= n < before.len() && before[n] == k;
                assert(order[n] == k);
            } else {
                assert(out[i] == rest[i - first.len()]);
            }
        }
        assert forall|i: int, j: int|
            0 <= i < j < out.len() && (numbering(#[trigger] out[i])->0).0 == (numbering(
                #[trigger] out[j],
            )->0).0 implies (numbering(out[i])->0).1 < (numbering(out[j])->0).1 by {
            if j < first.len() {
                assert(out[i] == first[i] && out[j] == first[j]);
            } else if i < first.len() {
                assert(out[i] == first[i] && out[j] == rest[j - first.len()]);
                assert(before.contains(key));
            } else {
                assert(out[i] == rest[i - first.len()] && out[j] == rest[j - first.len()]);
                assert(crate::reorder::session::counter_of(rest[i - first.len()])
                    < crate::reorder::session::counter_of(rest[j - first.len()]));
            }
        }
        if first.len() > 0 {
            let i = choose|i: int|
                0 <= i < before.len() && m.sessions[#[trigger] before[i]].due(m.tuner.wait, now);
            assert(order[i] == before[i]);
        }
        if exists|i: int|
            0 <= i < order.len() && m.sessions[#[trigger] order[i]].due(m.tuner.wait, now) {
            let i = choose|i: int|
                0 <= i < order.len() && m.sessions[#[trigger] order[i]].due(m.tuner.wait, now);
            if i < before.len() {
                assert(before[i] == order[i]);
            }
        }
    }
}

/// The order in which the sessions give gaps up, and what it means for the packets.
pub proof fn lemma_expires_order(m: ReorderModel, now: u64, after: ReorderModel, out: Seq<Incoming>) -> (order:
    Seq<SessionKey>)
    requires
        m.sound(),
        m.expires(now, after, out),
    ensures
        order.no_duplicates(),
        order.to_set() == m.sessions.dom(),
        out == m.given_up(order, now),
        forall|i: int| 0 <= i < order.len() ==> m.sessions.contains_key(#[trigger] order[i]),
        forall|i: int| 0 <= i < out.len() ==> {
            &&& numbering(#[trigger] out[i]) matches Some((k, c))
            &&& m.sessions.contains_key(k)
            &&& m.sessions[k].next < c < after.sessions[k].next
        },
        forall|i: int, j: int|
            0 <= i < j < out.len() && (numbering(#[trigger] out[i])->0).0 == (numbering(
                #[trigger] out[j],
            )->0).0 ==> (numbering(out[i])->0).1 < (numbering(out[j])->0).1,
        out.len() > 0 <==> exists|k: SessionKey| #[trigger]
            m.sessions.contains_key(k) && m.sessions[k].due(m.tuner.wait, now),
{
    let order = choose|order: Seq<SessionKey>| #![trigger m.given_up(order, now)]
        {
            &&& order.no_duplicates()
            &&& order.to_set() == m.sessions.dom()
            &&& out == m.given_up(order, now)
        };
    assert forall|i: int| 0 <= i < order.len() implies m.sessions.contains_key(#[trigger] order[i]) by {
        assert(order.contains(order[i]));
        assert(order.to_set().contains(order[i]));
    }
    lemma_given_up_order(m, order, now);
    assert forall|i: int| 0 <= i < out.len() implies {
        &&& numbering(#[trigger] out[i]) matches Some((k, c))
        &&& m.sessions.contains_key(k)
        &&& m.sessions[k].next < c < after.sessions[k].next
    } by {
        let k = (numbering(out[i])->0).0;
        assert(order.contains(k));
        assert(order.to_set().contains(k));
        assert(m.sessions.dom().contains(k));
    }
    if exists|k: SessionKey| #[trigger]
        m.sessions.contains_key(k) && m.sessions[k].due(m.tuner.wait, now) {
        let k = choose|k: SessionKey| #[trigger]
            m.sessions.contains_key(k) && m.sessions[k].due(m.tuner.wait, now);
        assert(m.sessions.dom().contains(k));
        assert(order.to_set().contains(k));
        let i = choose|i: int| 0 <= i < order.len() && order[i] == k;
        assert(m.sessions[order[i]].due(m.tuner.wait, now));
    }
    order
}

/// When gaps are given up: something is handed out exactly if the first deadline has come; what is
/// handed out of a session ascends; of the statistics only the packets that were timed out change,
/// by as many; and no deadline that has come is left.
pub proof fn law_expiry_hands_out_what_is_due(
    m: ReorderModel,
    now: u64,
    after: ReorderModel,
    out: Seq<Incoming>,
    deadline: Option<u64>,
    next: Option<u64>,
)
    requires
        m.sound(),
        m.expires(now, after, out),
        m.is_due_first(deadline),
        after.is_due_first(next),
    ensures
        out.len() > 0 <==> (deadline matches Some(t) && t <= now),
        forall|i: int, j: int|
            0 <= i < j < out.len() && (numbering(#[trigger] out[i])->0).0 == (numbering(
                #[trigger] out[j],
            )->0).0 ==> (numbering(out[i])->0).1 < (numbering(out[j])->0).1,
        forall|i: int| 0 <= i < out.len() ==> numbering(#[trigger] out[i]) is Some,
        after.stats == (ReorderStats {
            timed_out: m.stats.timed_out.wrapping_add(out.len() as u64),
            ..m.stats
        }),
        next matches Some(t) ==> now < t,
{
    let _order = lemma_expires_order(m, now, after, out);
    if let Some(t) = next {
        let k = choose|k: SessionKey| #[trigger]
            after.sessions.contains_key(k) && after.sessions[k].oldest is Some && t
                == after.sessions[k].oldest->0 + after.tuner.wait;
        assert(m.sessions.dom().contains(k));
        assert(m.sessions.contains_key(k));
        lemma_expired(m.sessions[k], k, 0, m.tuner.wait, now);
    }
}

/// Steps during which the buffer follows the session all the time.
pub open spec fn followed(start: ReorderModel, steps: Seq<Step>, key: SessionKey) -> bool
    decreases steps.len(),
{
    end(start, steps).sessions.contains_key(key) && (steps.len() == 0 || followed(
        start,
        steps.drop_last(),
        key,
    ))
}

proof fn lemma_run_sound(start: ReorderModel, steps: Seq<Step>)
    requires
        start.sound(),
        is_run(start, steps),
    ensures
        end(start, steps).sound(),
    decreases steps.len(),
{
    if steps.len() > 0 {
        lemma_run_sound(start, steps.drop_last());
        lemma_step_sound(end(start, steps.drop_last()), steps.last());
    }
}

proof fn lemma_expected_never_falls(start: ReorderModel, steps: Seq<Step>, key: SessionKey)
    requires
        start.sound(),
        is_run(start, steps),
        followed(start, steps, key),
    ensures
        start.sessions.contains_key(key),
        start.sessions[key].next <= end(start, steps).sessions[key].next,
    decreases steps.len(),
{
    if steps.len() > 0 {
        lemma_run_sound(start, steps.drop_last());
        lemma_expected_never_falls(start, steps.drop_last(), key);
        law_released_numbers_stay_behind(end(start, steps.drop_last()), steps.last(), key);
    }
}

/// A packet that comes after its number, or a higher one, of its session was handed out, and while
/// the session is still followed, is never withheld: it passes at once and alone, counts as late
/// and as nothing else, and what is held stays held.
pub proof fn law_packets_behind_a_released_one_are_late(
    m: ReorderModel,
    step: Step,
    i: int,
    steps: Seq<Step>,
    packet: Incoming,
    now: u64,
    after: ReorderModel,
    out: Seq<Incoming>,
)
    requires
        m.sound(),
        can_step(m, step),
        0 <= i < step.out.len(),
        numbering(step.out[i]) is Some,
        is_run(step.after, steps),
        numbering(packet) is Some,
        (numbering(packet)->0).0 == (numbering(step.out[i])->0).0,
        (numbering(packet)->0).1 <= (numbering(step.out[i])->0).1,
        followed(step.after, steps, (numbering(packet)->0).0),
        end(step.after, steps).pushes(packet, now, after, out),
    ensures
        out == seq![packet],
        after.stats == (ReorderStats {
            late: end(step.after, steps).stats.late.wrapping_add(1),
            wait_ms: after.stats.wait_ms,
            ..end(step.after, steps).stats
        }),
        forall|k: SessionKey| #[trigger]
            end(step.after, steps).sessions.contains_key(k) ==> after.sessions.contains_key(k)
                && after.sessions[k].held == end(step.after, steps).sessions[k].held,
{
    let key = (numbering(packet)->0).0;
    lemma_step_sound(m, step);
    law_released_numbers_stay_behind(m, step, key);
    lemma_expected_never_falls(step.after, steps, key);
    assert((numbering(step.out[i])->0).1 < step.after.sessions[key].next);
    law_late_packets_are_never_withheld(end(step.after, steps), packet, now, after, out);
    assert forall|k: SessionKey| #[trigger] end(step.after, steps).sessions.contains_key(k) implies after.sessions.contains_key(k) by {
        assert(after.sessions.dom().contains(k));
    }
}

/// A numbered packet is withheld exactly if its session is followed and its number lies ahead of
/// the expected one, at most [`MAX_GAP`] away. Otherwise it is handed out, and all that is handed
/// out with it is of its session.
pub proof fn law_packets_ahead_are_withheld(
    m: ReorderModel,
    packet: Incoming,
    now: u64,
    after: ReorderModel,
    out: Seq<Incoming>,
)
    requires
        m.sound(),
        countable(packet),
        numbering(packet) is Some,
        m.pushes(packet, now, after, out),
    ensures
        ({
            let (key, c) = numbering(packet)->0;
            let next = m.sessions[key].next;
            &&& out.len() == 0 <==> m.sessions.contains_key(key) && next < c <= next + MAX_GAP
            &&& out.len() > 0 ==> out.contains(packet)
            &&& forall|i: int|
                0 <= i < out.len() ==> (numbering(#[trigger] out[i]) matches Some((k, _)) && k
                    == key)
        }),
{
    let (key, c) = numbering(packet)->0;
    let room = lemma_numbered(m, packet, now, after, out);
    let s = room.session(key, c, now);
    lemma_pushed_step(s, key, c, packet, now);
    if c < s.next || c == s.next {
        assert(out[0] == packet);
    } else if c - s.next > MAX_GAP {
        assert(out[out.len() - 1] == packet);
    }
}

/// A fixed wait stays as it is, and an adaptive one stays within its bounds, whatever is taken in
/// and given up; an adaptive one starts with what it was given, brought into the bounds.
pub proof fn law_wait_stays_in_bounds(tuner: TunerModel, steps: Seq<Step>, initial: u64)
    requires
        is_run(ReorderModel::initial(tuner), steps),
        tuner == TunerModel::fixed(initial) || tuner == TunerModel::started(initial),
    ensures
        tuner == TunerModel::fixed(initial) ==> end(
            ReorderModel::initial(tuner),
            steps,
        ).tuner.wait == initial,
        tuner == TunerModel::started(initial) ==> {
            &&& tuner.wait == clamp_wait(initial as int)
            &&& MIN_WAIT <= end(ReorderModel::initial(tuner), steps).tuner.wait <= MAX_WAIT
        },
        end(ReorderModel::initial(tuner), steps).tuner.adaptive == tuner.adaptive,
    decreases steps.len(),
{
    if steps.len() > 0 {
        let start = ReorderModel::initial(tuner);
        law_wait_stays_in_bounds(tuner, steps.drop_last(), initial);
        law_every_state_is_sound(tuner, steps.drop_last());
        let m = end(start, steps.drop_last());
        let step = steps.last();
        if let Call::Push { packet, now } = step.call {
            if numbering(packet) is Some {
                let _room = lemma_numbered(m, packet, now, step.after, step.out);
            }
        }
    }
}

} // verus!
