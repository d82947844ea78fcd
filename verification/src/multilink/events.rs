//! What becomes of every event of the holes, told by the event itself.

use super::control::{
    bad_slots, can_redrop, find_bad, received_on, stats_table, Control, ControlAction,
};
use super::{link_is_bad, Incoming, MultiLinkOptions, WrappedInfo};
use crate::pool::Packet;
use crate::punch::{LinkEvent, LinkStat, PeerLinkStat};
use crate::reorder::run::{law_packets_ahead_are_withheld, lemma_numbered};
use crate::reorder::session::{numbering, SessionKey, SessionModel};
use crate::reorder::steps::lemma_pushed_step;
use crate::reorder::ReorderModel;
use vstd::prelude::*;

verus! {

/// A packet with the number `c` of the session `key` was taken in by a buffer, which handed out
/// `out`.
/// - It is the packet's own session that decides: one that is not followed yet lets it pass; so does
///   one that expects the number, or a later one; one that expects an earlier number, at most 511
///   before it, holds it under its number; and one that is further behind lets it pass.
/// - All that is handed out is of that session, and the packet is handed out or held.
/// - Every other session stays as it is; one is dropped at most, where 16 are followed already and
///   this one is new.
pub open spec fn is_taken_in(
    before: ReorderModel,
    key: SessionKey,
    c: u64,
    packet: Incoming,
    after: ReorderModel,
    out: Seq<Incoming>,
) -> bool {
    let known = before.sessions.contains_key(key);
    let next = before.sessions[key].next;
    &&& !known ==> out == seq![packet] && after.sessions[key].next == c + 1
    &&& known && c < next ==> out == seq![packet] && after.sessions[key].next == next
    &&& known && c == next ==> out.len() > 0 && out[0] == packet
    &&& known && next < c <= next + 511 ==> {
        &&& out.len() == 0
        &&& after.sessions[key].next == next
        &&& after.sessions[key].held.contains_key(c)
        &&& after.sessions[key].held[c].packet == packet
    }
    &&& known && c > next + 511 ==> out.len() > 0 && out.last() == packet
        && after.sessions[key].next == c + 1
    &&& after.sessions.contains_key(key)
    &&& forall|i: int|
        0 <= i < out.len() ==> {
            &&& (#[trigger] out[i]).order is Some
            &&& match key {
                SessionKey::Flow(flow) => out[i].wrapped is None && (out[i].order->0).0 == flow,
                SessionKey::Client(client, flow) => out[i].wrapped is Some
                    && out[i].wrapped->0.client_id == client && (out[i].order->0).0 == flow,
            }
        }
    &&& forall|k: SessionKey|
        k != key && #[trigger] after.sessions.contains_key(k) ==> before.sessions.contains_key(k)
            && after.sessions[k] == before.sessions[k]
    &&& known || before.sessions.dom().len() < 16 ==> forall|k: SessionKey|
        before.sessions.contains_key(k) ==> #[trigger] after.sessions.contains_key(k)
}

proof fn lemma_taken_in(
    m: ReorderModel,
    key: SessionKey,
    c: u64,
    packet: Incoming,
    now: u64,
    after: ReorderModel,
    out: Seq<Incoming>,
)
    requires
        m.sound(),
        numbering(packet) == Some((key, c)),
        c < u64::MAX,
        m.pushes(packet, now, after, out),
    ensures
        is_taken_in(m, key, c, packet, after, out),
{
    let room = lemma_numbered(m, packet, now, after, out);
    let s = room.session(key, c, now);
    lemma_pushed_step(s, key, c, packet, now);
    law_packets_ahead_are_withheld(m, packet, now, after, out);
    if !m.sessions.contains_key(key) {
        let u = SessionModel { next: (c + 1) as u64, ..s };
        assert(u.drained() == (u, Seq::<Incoming>::empty()));
        assert(seq![packet] + Seq::<Incoming>::empty() =~= seq![packet]);
    }
    assert forall|k: SessionKey|
        k != key && #[trigger] after.sessions.contains_key(k) implies m.sessions.contains_key(k)
        && after.sessions[k] == m.sessions[k] by {
        assert(room.sessions.contains_key(k));
    }
}

/// A numbered packet of the peer itself keeps its slot, its flow, its number and its payload. With
/// the restoring of the order switched off it passes at once; else it goes to the session of its
/// flow, and to no other.
pub proof fn law_an_ordered_packet_goes_to_its_flow(
    slot: u8,
    flow: u32,
    seq: u64,
    payload: Packet,
)
    ensures
        forall|c: &mut Control, received: &Vec<(u8, u64)>, now: u64, ready: &mut Vec<Incoming>, action: ControlAction|
            #[trigger] call_ensures(
                Control::step,
                (c, LinkEvent::PeerOrdered { slot, flow, seq, payload }, received, now, ready),
                action,
            ) && (*c).wf() && seq < u64::MAX ==> {
                let packet = Incoming { slot, payload, wrapped: None, order: Some((flow, seq)) };
                &&& action is Nothing
                &&& (*c)@.reorder is None ==> final(ready)@ == (*ready)@.push(packet)
                &&& (*c)@.reorder matches Some(buffer) ==> exists|out: Seq<Incoming>|
                    #[trigger] is_taken_in(
                        buffer,
                        SessionKey::Flow(flow),
                        seq,
                        packet,
                        final(c)@.reorder->0,
                        out,
                    ) && final(ready)@ == (*ready)@ + out
            },
{
    assert forall|c: &mut Control, received: &Vec<(u8, u64)>, now: u64, ready: &mut Vec<Incoming>, action: ControlAction|
        #[trigger] call_ensures(
            Control::step,
            (c, LinkEvent::PeerOrdered { slot, flow, seq, payload }, received, now, ready),
            action,
        ) && (*c).wf() && seq < u64::MAX implies {
        let packet = Incoming { slot, payload, wrapped: None, order: Some((flow, seq)) };
        &&& action is Nothing
        &&& (*c)@.reorder is None ==> final(ready)@ == (*ready)@.push(packet)
        &&& (*c)@.reorder matches Some(buffer) ==> exists|out: Seq<Incoming>|
            #[trigger] is_taken_in(
                buffer,
                SessionKey::Flow(flow),
                seq,
                packet,
                final(c)@.reorder->0,
                out,
            ) && final(ready)@ == (*ready)@ + out
    } by {
        let packet = Incoming { slot, payload, wrapped: None, order: Some((flow, seq)) };
        (*c).lemma_buffer();
        let out = lemma_passed(*c, packet, now, *final(c), (*ready)@, final(ready)@);
        if let Some(buffer) = (*c)@.reorder {
            lemma_taken_in(
                buffer,
                SessionKey::Flow(flow),
                seq,
                packet,
                now,
                final(c)@.reorder->0,
                out,
            );
        }
    }
}

/// How a packet that was delivered came out.
proof fn lemma_passed(
    before: Control,
    packet: Incoming,
    now: u64,
    after: Control,
    ready: Seq<Incoming>,
    done: Seq<Incoming>,
) -> (out: Seq<Incoming>)
    requires
        exists|out: Seq<Incoming>|
            #[trigger] super::control::passes(before@, packet, now, after@, out) && done == ready
                + out,
    ensures
        done == ready + out,
        super::control::passes(before@, packet, now, after@, out),
        out == seq![packet] ==> done == ready.push(packet),
{
    let out = choose|out: Seq<Incoming>|
        #[trigger] super::control::passes(before@, packet, now, after@, out) && done == ready + out;
    assert(out == seq![packet] ==> done =~= ready.push(packet));
    out
}

/// A packet that is wrapped for a client keeps its slot, its client, its number and its payload.
/// Where it has a flow, and packets of clients are put in order, it goes to the session of that
/// client and that flow, and to no other; else it passes at once.
pub proof fn law_a_wrapped_packet_goes_to_its_client(
    slot: u8,
    seq: u64,
    client_id: u32,
    flow: Option<u32>,
    payload: Packet,
)
    requires
        client_id <= 255,
    ensures
        forall|c: &mut Control, received: &Vec<(u8, u64)>, now: u64, ready: &mut Vec<Incoming>, action: ControlAction|
            #[trigger] call_ensures(
                Control::step,
                (
                    c,
                    LinkEvent::PeerWrapped { slot, seq, client_id, flow, payload },
                    received,
                    now,
                    ready,
                ),
                action,
            ) && (*c).wf() && seq < u64::MAX ==> {
                let wrapped = Some(WrappedInfo { client_id: client_id as u8, seq });
                let plain = Incoming { slot, payload, wrapped, order: None };
                let numbered = Incoming { slot, payload, wrapped, order: Some((flow->0, seq)) };
                let buffered = (*c)@.reorder is Some && (*c)@.reorder_clients;
                &&& action is Nothing
                &&& flow is None ==> final(ready)@ == (*ready)@.push(plain)
                &&& flow is Some && !buffered ==> final(ready)@ == (*ready)@.push(numbered)
                    && final(c)@ == (*c)@
                &&& flow is Some && buffered ==> exists|out: Seq<Incoming>|
                    #[trigger] is_taken_in(
                        (*c)@.reorder->0,
                        SessionKey::Client(client_id as u8, flow->0),
                        seq,
                        numbered,
                        final(c)@.reorder->0,
                        out,
                    ) && final(ready)@ == (*ready)@ + out
            },
{
    assert forall|c: &mut Control, received: &Vec<(u8, u64)>, now: u64, ready: &mut Vec<Incoming>, action: ControlAction|
        #[trigger] call_ensures(
            Control::step,
            (
                c,
                LinkEvent::PeerWrapped { slot, seq, client_id, flow, payload },
                received,
                now,
                ready,
            ),
            action,
        ) && (*c).wf() && seq < u64::MAX implies {
        let wrapped = Some(WrappedInfo { client_id: client_id as u8, seq });
        let plain = Incoming { slot, payload, wrapped, order: None };
        let numbered = Incoming { slot, payload, wrapped, order: Some((flow->0, seq)) };
        let buffered = (*c)@.reorder is Some && (*c)@.reorder_clients;
        &&& action is Nothing
        &&& flow is None ==> final(ready)@ == (*ready)@.push(plain)
        &&& flow is Some && !buffered ==> final(ready)@ == (*ready)@.push(numbered) && final(c)@ == (
        *c)@
        &&& flow is Some && buffered ==> exists|out: Seq<Incoming>|
            #[trigger] is_taken_in(
                (*c)@.reorder->0,
                SessionKey::Client(client_id as u8, flow->0),
                seq,
                numbered,
                final(c)@.reorder->0,
                out,
            ) && final(ready)@ == (*ready)@ + out
    } by {
        let wrapped = Some(WrappedInfo { client_id: client_id as u8, seq });
        let plain = Incoming { slot, payload, wrapped, order: None };
        let numbered = Incoming { slot, payload, wrapped, order: Some((flow->0, seq)) };
        (*c).lemma_buffer();
        match flow {
            None => {
                let _out = lemma_passed(*c, plain, now, *final(c), (*ready)@, final(ready)@);
            },
            Some(f) => {
                let out = lemma_passed(*c, numbered, now, *final(c), (*ready)@, final(ready)@);
                if (*c)@.reorder is Some && (*c)@.reorder_clients {
                    lemma_taken_in(
                        (*c)@.reorder->0,
                        SessionKey::Client(client_id as u8, f),
                        seq,
                        numbered,
                        now,
                        final(c)@.reorder->0,
                        out,
                    );
                }
            },
        }
    }
}

/// Payload without a number passes at once and as it came, and changes nothing of what is held and
/// expected.
pub proof fn law_plain_payload_passes_at_once(slot: u8, payload: Packet)
    ensures
        forall|c: &mut Control, received: &Vec<(u8, u64)>, now: u64, ready: &mut Vec<Incoming>, action: ControlAction|
            #[trigger] call_ensures(
                Control::step,
                (c, LinkEvent::PeerData { slot, payload }, received, now, ready),
                action,
            ) && (*c).wf() ==> {
                &&& action is Nothing
                &&& final(ready)@ == (*ready)@.push(
                    Incoming { slot, payload, wrapped: None, order: None },
                )
                &&& (*c)@.reorder matches Some(buffer) ==> final(c)@.reorder->0.sessions
                    == buffer.sessions && final(c)@.reorder->0.tuner == buffer.tuner
            },
{
    assert forall|c: &mut Control, received: &Vec<(u8, u64)>, now: u64, ready: &mut Vec<Incoming>, action: ControlAction|
        #[trigger] call_ensures(
            Control::step,
            (c, LinkEvent::PeerData { slot, payload }, received, now, ready),
            action,
        ) && (*c).wf() implies {
        &&& action is Nothing
        &&& final(ready)@ == (*ready)@.push(Incoming { slot, payload, wrapped: None, order: None })
        &&& (*c)@.reorder matches Some(buffer) ==> final(c)@.reorder->0.sessions == buffer.sessions
            && final(c)@.reorder->0.tuner == buffer.tuner
    } by {
        let packet = Incoming { slot, payload, wrapped: None, order: None };
        let _out = lemma_passed(*c, packet, now, *final(c), (*ready)@, final(ready)@);
    }
}

/// A wish to punch a slot anew, counters, and the number of a client that does not fit a byte bring
/// no packet: nothing is handed out or held, and they are passed on for the very slot or client that
/// they name.
pub proof fn law_other_events_are_passed_on()
    ensures
        forall|c: &mut Control, event: LinkEvent, received: &Vec<(u8, u64)>, now: u64, ready: &mut Vec<Incoming>, action: ControlAction|
            #[trigger] call_ensures(Control::step, (c, event, received, now, ready), action)
                && (event is DeleteLink || event is PeerStats || event is PeerRendezvous || (
            event matches LinkEvent::PeerWrapped { client_id, .. } && client_id > 255)) ==> {
                &&& final(ready)@ == (*ready)@
                &&& final(c)@ == (*c)@
                &&& event matches LinkEvent::DeleteLink { slot } ==> action == ControlAction::Redrop(
                    slot,
                )
                &&& event matches LinkEvent::PeerWrapped { client_id, .. } ==> action
                    == ControlAction::BadClient(client_id)
                &&& event is PeerStats ==> action is Replace
                &&& event is PeerRendezvous ==> action is Feed || action is BadRecord
            },
{
}

/// The holes to punch anew are those through which the peer sent at least five packets, of which
/// fewer than half came: of a slot that we have no hole for, none did.
pub proof fn law_bad_holes_are_replaced(
    stats: &Vec<PeerLinkStat>,
    received: &Vec<(u8, u64)>,
    slots: Vec<u8>,
    slot: u8,
)
    requires
        call_ensures(find_bad, (stats, received), slots),
        forall|i: int, j: int|
            0 <= i < j < received@.len() ==> (#[trigger] received@[i]).0 != (
            #[trigger] received@[j]).0,
    ensures
        slots@.contains(slot) <==> exists|i: int|
            {
                &&& 0 <= i < stats@.len()
                &&& (#[trigger] stats@[i]).slot == slot
                &&& stats@[i].sent >= 5
                &&& forall|j: int|
                    0 <= j < received@.len() && (#[trigger] received@[j]).0 == slot ==> 2
                        * received@[j].1 < stats@[i].sent
            },
        slots@.len() <= stats@.len(),
{
    lemma_received(received@, slot);
    lemma_bad_slots(stats@, received@, slot);
}

/// What came through the hole of a slot is what stands beside it, and nothing, where it is not
/// listed.
proof fn lemma_received(received: Seq<(u8, u64)>, slot: u8)
    requires
        forall|i: int, j: int|
            0 <= i < j < received.len() ==> (#[trigger] received[i]).0 != (#[trigger] received[j]).0,
    ensures
        forall|j: int|
            0 <= j < received.len() && (#[trigger] received[j]).0 == slot ==> received_on(
                received,
                slot,
            ) == received[j].1,
        (forall|j: int| 0 <= j < received.len() ==> (#[trigger] received[j]).0 != slot)
            ==> received_on(received, slot) == 0,
    decreases received.len(),
{
    if received.len() > 0 && received[0].0 != slot {
        let rest = received.skip(1);
        assert forall|i: int, j: int| 0 <= i < j < rest.len() implies (#[trigger] rest[i]).0 != (
        #[trigger] rest[j]).0 by {
            assert(received[i + 1].0 != received[j + 1].0);
        }
        lemma_received(rest, slot);
        assert forall|j: int|
            0 <= j < received.len() && (#[trigger] received[j]).0 == slot implies received_on(
            received,
            slot,
        ) == received[j].1 by {
            assert(rest[j - 1] == received[j]);
        }
        if forall|j: int| 0 <= j < received.len() ==> (#[trigger] received[j]).0 != slot {
            assert forall|j: int| 0 <= j < rest.len() implies (#[trigger] rest[j]).0 != slot by {
                assert(rest[j] == received[j + 1]);
            }
        }
    } else if received.len() > 0 {
        assert forall|j: int|
            0 <= j < received.len() && (#[trigger] received[j]).0 == slot implies received_on(
            received,
            slot,
        ) == received[j].1 by {
            if j > 0 {
                assert(received[0].0 != received[j].0);
            }
        }
    }
}

proof fn lemma_bad_slots(stats: Seq<PeerLinkStat>, received: Seq<(u8, u64)>, slot: u8)
    ensures
        bad_slots(stats, received).contains(slot) <==> exists|i: int|
            {
                &&& 0 <= i < stats.len()
                &&& (#[trigger] stats[i]).slot == slot
                &&& stats[i].sent >= 5
                &&& 2 * received_on(received, slot) < stats[i].sent
            },
        bad_slots(stats, received).len() <= stats.len(),
    decreases stats.len(),
{
    if stats.len() > 0 {
        let before = stats.drop_last();
        let (a, b) = (bad_slots(before, received), bad_slots(stats, received));
        lemma_bad_slots(before, received, slot);
        if a.contains(slot) {
            let i = choose|i: int|
                {
                    &&& 0 <= i < before.len()
                    &&& (#[trigger] before[i]).slot == slot
                    &&& before[i].sent >= 5
                    &&& 2 * received_on(received, slot) < before[i].sent
                };
            assert(stats[i] == before[i]);
            let k = choose|k: int| 0 <= k < a.len() && a[k] == slot;
            assert(b[k] == slot);
        }
        if exists|i: int|
            {
                &&& 0 <= i < stats.len()
                &&& (#[trigger] stats[i]).slot == slot
                &&& stats[i].sent >= 5
                &&& 2 * received_on(received, slot) < stats[i].sent
            } {
            let i = choose|i: int|
                {
                    &&& 0 <= i < stats.len()
                    &&& (#[trigger] stats[i]).slot == slot
                    &&& stats[i].sent >= 5
                    &&& 2 * received_on(received, slot) < stats[i].sent
                };
            if i < before.len() {
                assert(before[i] == stats[i]);
            } else {
                assert(b[b.len() - 1] == slot);
            }
        }
        if b.contains(slot) && !a.contains(slot) {
            let k = choose|k: int| 0 <= k < b.len() && b[k] == slot;
            if k < a.len() {
                assert(a[k] == slot);
            }
            assert(stats[stats.len() - 1].slot == slot);
        }
    }
}

/// A hole is judged by at least five packets, and is bad where more than half of them are lost. The
/// worse the count, the worse the hole: one that is bad stays so with fewer packets received.
pub proof fn law_a_hole_is_bad_when_more_than_half_is_lost(
    sent: u64,
    received: u64,
    fewer: u64,
    bad: bool,
    worse: bool,
)
    requires
        call_ensures(link_is_bad, (sent, received), bad),
        call_ensures(link_is_bad, (sent, fewer), worse),
        fewer <= received,
    ensures
        sent < 5 ==> !bad,
        sent >= 5 ==> (bad <==> received + received < sent),
        bad ==> worse,
{
}

/// The slots that can be punched anew are the ten that there are.
pub proof fn law_ten_slots_can_be_punched_anew(slot: u8, can: bool)
    requires
        call_ensures(can_redrop, (slot,), can),
    ensures
        can <==> slot < 10,
{
}

/// The table for the peer has a line for each hole, with its slot and its counters, in order.
pub proof fn law_the_table_lists_every_hole(
    links: &Vec<(u8, (u64, u64))>,
    table: Vec<LinkStat>,
    i: int,
)
    requires
        call_ensures(stats_table, (links,), table),
        0 <= i < links@.len(),
    ensures
        table@.len() == links@.len(),
        table@[i].slot == links@[i].0,
        table@[i].sent == links@[i].1.0,
        table@[i].received == links@[i].1.1,
{
}

/// Of the events only numbered packets with the last of all numbers cannot be followed, and only
/// where a buffer would take them.
pub proof fn law_only_the_last_number_cannot_be_followed(
    control: &Control,
    event: &LinkEvent,
    can: bool,
)
    requires
        call_ensures(Control::can_follow, (control, event), can),
    ensures
        !can <==> control@.reorder is Some && match *event {
            LinkEvent::PeerOrdered { seq, .. } => seq == u64::MAX,
            LinkEvent::PeerWrapped { seq, flow, client_id, .. } => seq == u64::MAX && flow is Some
                && client_id <= 255 && control@.reorder_clients,
            _ => false,
        },
{
}

/// With a wait of zero nothing is put in order; with any other the wait starts with it, within 3 to
/// 30 milliseconds, and no session is followed yet.
pub proof fn law_the_options_switch_the_buffer(options: &MultiLinkOptions, control: Control)
    requires
        call_ensures(Control::new, (options,), control),
    ensures
        control@.reorder is None <==> options.reorder_wait == 0,
        control@.reorder_clients == options.reorder_clients,
        control@.reorder matches Some(buffer) ==> {
            &&& buffer.tuner.adaptive
            &&& buffer.tuner.wait == if options.reorder_wait < 3_000_000 {
                3_000_000
            } else if options.reorder_wait > 30_000_000 {
                30_000_000
            } else {
                options.reorder_wait
            }
            &&& forall|k: SessionKey| !buffer.sessions.contains_key(k)
        },
{
}

} // verus!
