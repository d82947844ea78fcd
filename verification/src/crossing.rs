//! What crosses a hole, from one end to the other.

use crate::codec::{acceptable, encoded, masked};
use crate::guid::guid_text;
use crate::net::Endpoint;
use crate::pool::Bank;
use crate::punch::{
    data_message, facing, fitting, handle_lite, law_data_crosses_the_hole, InitMessage, InitPayload,
    Link, LinkEvent, LinkState, LinkStat, LitePayload, PeerIdentity, PeerLinkStat, PeerMessage,
    Received,
};
use crate::seal::{counter_in, law_accepted_counter_is_not_fresh};
use crate::wire::{parse, parsed, Fast, FastModel};
use vstd::prelude::*;

verus! {

/// What comes in at one end is what went out at the other, and the window lets it pass.
pub open spec fn arrives(sender: Link, sent: Seq<u8>, total: Option<usize>, receiver: Link, buf: Seq<u8>) -> bool {
    &&& total is Some
    &&& buf == sent.take(total->0 as int)
    &&& facing(sender.send, receiver.recv)
    &&& receiver.recv.opener.passes(sender.send.sealer.next())
    &&& receiver.identity.slot == sender.identity.slot
}

proof fn lemma_arrives(
    sender: Link,
    sent: Seq<u8>,
    total: Option<usize>,
    receiver: Link,
    buf: Seq<u8>,
    fast: FastModel,
    behind: Seq<u8>,
)
    requires
        arrives(sender, sent, total, receiver, buf),
        total->0 == 24 + data_message(fast).len(),
        sent == encoded(
            sender.send.xor@,
            sender.send.sealer.key(),
            sender.send.sealer.next(),
            data_message(fast),
        ) + behind,
        sent.len() >= total->0,
        behind.len() + total->0 == sent.len(),
    ensures
        acceptable(receiver.recv, buf),
        crate::wire::parsed(masked(buf, receiver.recv.xor@).skip(24)) == Some(fast),
{
    let packet = encoded(
        sender.send.xor@,
        sender.send.sealer.key(),
        sender.send.sealer.next(),
        data_message(fast),
    );
    assert(sent.take(total->0 as int) =~= packet);
    law_data_crosses_the_hole(sender.send, receiver.recv, sender.send.sealer.next(), fast);
}

/// Payload that one end sends comes in at the other end as payload of its slot, byte for byte.
pub proof fn law_payload_crosses_the_hole(payload: &[u8], from: Endpoint, now: u64)
    requires
        payload@.len() <= 1500,
    ensures
        forall|a: &mut Link, out: &mut [u8], total: Option<usize>, b: &mut Link, buf: &mut [u8], bank: &mut Bank, received: Received|
            #![trigger call_ensures(Link::data_packet, (a, payload, out), total), call_ensures(Link::receive, (b, buf, from, now, bank), received)]
            call_ensures(Link::data_packet, (a, payload, out), total) && call_ensures(
                Link::receive,
                (b, buf, from, now, bank),
                received,
            ) && arrives(*a, final(out)@, total, *b, (*buf)@) ==> {
                &&& received matches Received::Event(LinkEvent::PeerData { slot, payload: p })
                &&& slot == (*a).identity.slot
                &&& p@ == payload@
                &&& final(b).state.endpoint == Some(from)
                &&& final(b).state.last_seen == now
            },
{
    assert forall|a: &mut Link, out: &mut [u8], total: Option<usize>, b: &mut Link, buf: &mut [u8], bank: &mut Bank, received: Received|
        #![trigger call_ensures(Link::data_packet, (a, payload, out), total), call_ensures(Link::receive, (b, buf, from, now, bank), received)]
        call_ensures(Link::data_packet, (a, payload, out), total) && call_ensures(
            Link::receive,
            (b, buf, from, now, bank),
            received,
        ) && arrives(*a, final(out)@, total, *b, (*buf)@) implies {
        &&& received matches Received::Event(LinkEvent::PeerData { slot, payload: p })
        &&& slot == (*a).identity.slot
        &&& p@ == payload@
        &&& final(b).state.endpoint == Some(from)
        &&& final(b).state.last_seen == now
    } by {
        let fast = FastModel::Data { slot: (*a).identity.slot as u32, payload: payload@ };
        lemma_arrives(*a, final(out)@, total, *b, (*buf)@, fast, (*out)@.skip(total->0 as int));
    }
}

/// A packet with a number in a flow comes in at the other end with its flow, its number and its
/// payload.
pub proof fn law_an_ordered_packet_crosses_the_hole(
    flow: u32,
    seq: u64,
    payload: &[u8],
    from: Endpoint,
    now: u64,
)
    requires
        payload@.len() <= 1500,
    ensures
        forall|a: &mut Link, out: &mut [u8], total: Option<usize>, b: &mut Link, buf: &mut [u8], bank: &mut Bank, received: Received|
            #![trigger call_ensures(Link::ordered_packet, (a, flow, seq, payload, out), total), call_ensures(Link::receive, (b, buf, from, now, bank), received)]
            call_ensures(Link::ordered_packet, (a, flow, seq, payload, out), total) && call_ensures(
                Link::receive,
                (b, buf, from, now, bank),
                received,
            ) && arrives(*a, final(out)@, total, *b, (*buf)@) ==> {
                &&& received matches Received::Event(
                    LinkEvent::PeerOrdered { slot, flow: f, seq: n, payload: p },
                )
                &&& slot == (*a).identity.slot && f == flow && n == seq
                &&& p@ == payload@
                &&& final(b).state.endpoint == Some(from)
                &&& final(b).state.last_seen == now
            },
{
    assert forall|a: &mut Link, out: &mut [u8], total: Option<usize>, b: &mut Link, buf: &mut [u8], bank: &mut Bank, received: Received|
        #![trigger call_ensures(Link::ordered_packet, (a, flow, seq, payload, out), total), call_ensures(Link::receive, (b, buf, from, now, bank), received)]
        call_ensures(Link::ordered_packet, (a, flow, seq, payload, out), total) && call_ensures(
            Link::receive,
            (b, buf, from, now, bank),
            received,
        ) && arrives(*a, final(out)@, total, *b, (*buf)@) implies {
        &&& received matches Received::Event(
            LinkEvent::PeerOrdered { slot, flow: f, seq: n, payload: p },
        )
        &&& slot == (*a).identity.slot && f == flow && n == seq
        &&& p@ == payload@
        &&& final(b).state.endpoint == Some(from)
        &&& final(b).state.last_seen == now
    } by {
        let fast = FastModel::Ordered {
            slot: (*a).identity.slot as u32,
            flow,
            seq,
            payload: payload@,
        };
        lemma_arrives(*a, final(out)@, total, *b, (*buf)@, fast, (*out)@.skip(total->0 as int));
    }
}

/// A packet that is wrapped for a client comes in at the other end with its client, its number, its
/// flow, if it has one, and its payload.
pub proof fn law_a_wrapped_packet_crosses_the_hole(
    seq: u64,
    client_id: u32,
    flow: Option<u32>,
    payload: &[u8],
    from: Endpoint,
    now: u64,
)
    requires
        payload@.len() <= 1500,
    ensures
        forall|a: &mut Link, out: &mut [u8], total: Option<usize>, b: &mut Link, buf: &mut [u8], bank: &mut Bank, received: Received|
            #![trigger call_ensures(Link::wrapped_packet, (a, seq, client_id, flow, payload, out), total), call_ensures(Link::receive, (b, buf, from, now, bank), received)]
            call_ensures(
                Link::wrapped_packet,
                (a, seq, client_id, flow, payload, out),
                total,
            ) && call_ensures(Link::receive, (b, buf, from, now, bank), received) && arrives(
                *a,
                final(out)@,
                total,
                *b,
                (*buf)@,
            ) ==> {
                &&& received matches Received::Event(
                    LinkEvent::PeerWrapped { slot, seq: n, client_id: c, flow: f, payload: p },
                )
                &&& slot == (*a).identity.slot && n == seq && c == client_id && f == flow
                &&& p@ == payload@
                &&& final(b).state.endpoint == Some(from)
                &&& final(b).state.last_seen == now
            },
{
    assert forall|a: &mut Link, out: &mut [u8], total: Option<usize>, b: &mut Link, buf: &mut [u8], bank: &mut Bank, received: Received|
        #![trigger call_ensures(Link::wrapped_packet, (a, seq, client_id, flow, payload, out), total), call_ensures(Link::receive, (b, buf, from, now, bank), received)]
        call_ensures(Link::wrapped_packet, (a, seq, client_id, flow, payload, out), total)
            && call_ensures(Link::receive, (b, buf, from, now, bank), received) && arrives(
            *a,
            final(out)@,
            total,
            *b,
            (*buf)@,
        ) implies {
        &&& received matches Received::Event(
            LinkEvent::PeerWrapped { slot, seq: n, client_id: c, flow: f, payload: p },
        )
        &&& slot == (*a).identity.slot && n == seq && c == client_id && f == flow
        &&& p@ == payload@
        &&& final(b).state.endpoint == Some(from)
        &&& final(b).state.last_seen == now
    } by {
        let fast = FastModel::Wrapped {
            slot: (*a).identity.slot as u32,
            seq,
            payload: payload@,
            client_id,
            flow,
        };
        lemma_arrives(*a, final(out)@, total, *b, (*buf)@, fast, (*out)@.skip(total->0 as int));
    }
}

/// No packet is taken twice: the bytes that a hole took once are dropped when they come again,
/// from wherever, and nothing changes.
pub proof fn law_a_repeated_packet_is_dropped(from: Endpoint, now: u64, again: Endpoint, later: u64)
    ensures
        forall|a: &mut Link, buf: &mut [u8], bank: &mut Bank, received: Received, b: &mut Link, copy: &mut [u8], next: &mut Bank, repeated: Received|
            #![trigger call_ensures(Link::receive, (a, buf, from, now, bank), received), call_ensures(Link::receive, (b, copy, again, later, next), repeated)]
            call_ensures(Link::receive, (a, buf, from, now, bank), received) && call_ensures(
                Link::receive,
                (b, copy, again, later, next),
                repeated,
            ) && *b == *final(a) && (*copy)@ == (*buf)@ && (*a).recv.opener.window() is Some && !(
            received is Dropped) ==> {
                &&& repeated is Dropped
                &&& final(b).state == (*b).state
            },
{
    assert forall|a: &mut Link, buf: &mut [u8], bank: &mut Bank, received: Received, b: &mut Link, copy: &mut [u8], next: &mut Bank, repeated: Received|
        #![trigger call_ensures(Link::receive, (a, buf, from, now, bank), received), call_ensures(Link::receive, (b, copy, again, later, next), repeated)]
        call_ensures(Link::receive, (a, buf, from, now, bank), received) && call_ensures(
            Link::receive,
            (b, copy, again, later, next),
            repeated,
        ) && *b == *final(a) && (*copy)@ == (*buf)@ && (*a).recv.opener.window() is Some && !(
        received is Dropped) implies {
        &&& repeated is Dropped
        &&& final(b).state == (*b).state
    } by {
        let packet = masked((*buf)@, (*a).recv.xor@);
        let w = (*a).recv.opener.window()->0;
        assert(acceptable((*a).recv, (*buf)@));
        law_accepted_counter_is_not_fresh(
            w,
            counter_in(packet),
            final(a).recv.opener.window()->0,
        );
        assert(!acceptable((*b).recv, (*copy)@));
    }
}

/// A packet that is not signed with the key of the hole, or too short to be signed at all, is
/// dropped: it does not even move the address of the peer.
pub proof fn law_foreign_packets_change_nothing(from: Endpoint, now: u64)
    ensures
        forall|l: &mut Link, buf: &mut [u8], bank: &mut Bank, received: Received| #[trigger]
            call_ensures(Link::receive, (l, buf, from, now, bank), received) && ((*buf)@.len() < 24
                || masked((*buf)@, (*l).recv.xor@).take(16) != crate::seal::tag_of(
                (*l).recv.opener.key(),
                counter_in(masked((*buf)@, (*l).recv.xor@)),
                masked((*buf)@, (*l).recv.xor@).skip(24),
            )) ==> {
                &&& received is Dropped
                &&& final(l).state == (*l).state
                &&& *final(bank) == *bank
            },
{
    assert forall|l: &mut Link, buf: &mut [u8], bank: &mut Bank, received: Received| #[trigger]
        call_ensures(Link::receive, (l, buf, from, now, bank), received) && ((*buf)@.len() < 24
            || masked((*buf)@, (*l).recv.xor@).take(16) != crate::seal::tag_of(
            (*l).recv.opener.key(),
            counter_in(masked((*buf)@, (*l).recv.xor@)),
            masked((*buf)@, (*l).recv.xor@).skip(24),
        )) implies {
        &&& received is Dropped
        &&& final(l).state == (*l).state
        &&& *final(bank) == *bank
    } by {
        assert(masked((*buf)@, (*l).recv.xor@).len() == (*buf)@.len());
        assert(!acceptable((*l).recv, (*buf)@));
    }
}

/// What a message of the general format means: payload, with all that it says, for the slot of the
/// hole; wishes and counters for the slots that they name, as far as these fit a byte. Payload of
/// more than 1500 bytes and signs of life mean nothing.
pub proof fn law_messages_mean_what_they_say(payload: Option<LitePayload>, slot: u8)
    ensures
        forall|bank: &mut Bank, event: Option<LinkEvent>| #[trigger]
            call_ensures(handle_lite, (payload, slot, bank), event) ==> match payload {
                Some(LitePayload::Data { payload: data }) => {
                    &&& event is Some <==> data@.len() <= 1500
                    &&& event matches Some(e) ==> (e matches LinkEvent::PeerData { slot: s, payload: p }
                        && s == slot && p@ == data@)
                },
                Some(LitePayload::Ordered { flow, seq, payload: data }) => {
                    &&& event is Some <==> data@.len() <= 1500
                    &&& event matches Some(e) ==> (e matches LinkEvent::PeerOrdered {
                        slot: s,
                        flow: f,
                        seq: n,
                        payload: p,
                    } && s == slot && f == flow && n == seq && p@ == data@)
                },
                Some(LitePayload::Wrapped { seq, client_id, flow, payload: data }) => {
                    &&& event is Some <==> data@.len() <= 1500
                    &&& event matches Some(e) ==> (e matches LinkEvent::PeerWrapped {
                        slot: s,
                        seq: n,
                        client_id: c,
                        flow: f,
                        payload: p,
                    } && s == slot && n == seq && c == client_id && f == flow && p@ == data@)
                },
                Some(LitePayload::DeleteLink { slot: other }) => {
                    &&& event is Some <==> other <= 255
                    &&& event matches Some(e) ==> e == (LinkEvent::DeleteLink { slot: other as u8 })
                },
                Some(LitePayload::Rendezvous(record)) => event == Some(
                    LinkEvent::PeerRendezvous(record),
                ),
                Some(LitePayload::Stats(_)) => event is Some && event->0 is PeerStats,
                Some(LitePayload::KeepAlive { .. }) => event is None,
                None => event is None,
            },
{
}

/// Every line of the counters of the peer whose slot fits a byte is taken over as it is.
pub proof fn law_counters_are_taken_over(links: Seq<LinkStat>, slot: u8, sent: u64, received: u64)
    ensures
        fitting(links).contains(PeerLinkStat { slot, sent, received }) <==> links.contains(
            LinkStat { slot: slot as u32, sent, received },
        ),
        fitting(links).len() <= links.len(),
    decreases links.len(),
{
    let (p, l) = (PeerLinkStat { slot, sent, received }, LinkStat { slot: slot as u32, sent, received });
    if links.len() > 0 {
        let before = links.drop_last();
        let (a, b) = (fitting(before), fitting(links));
        law_counters_are_taken_over(before, slot, sent, received);
        if links.contains(l) {
            let i = choose|i: int| 0 <= i < links.len() && links[i] == l;
            if i < before.len() {
                assert(before[i] == l);
                let k = choose|k: int| 0 <= k < a.len() && a[k] == p;
                assert(b[k] == p);
            } else {
                assert(b[b.len() - 1] == p);
            }
        }
        if b.contains(p) {
            let k = choose|k: int| 0 <= k < b.len() && b[k] == p;
            if k < a.len() {
                assert(a[k] == p);
                let i = choose|i: int| 0 <= i < before.len() && before[i] == l;
                assert(links[i] == l);
            } else {
                assert(links[links.len() - 1] == l);
            }
        }
    }
}

/// A knock of the peer is answered with its own port; the answer names us and the peer. A knock
/// that names somebody else, and a message of another slot, are dropped and change nothing; every
/// other message of the peer moves its address to where it came from.
pub proof fn law_knocks_of_the_peer_are_answered(message: PeerMessage, from: Endpoint, now: u64)
    ensures
        forall|l: &mut Link, bank: &mut Bank, received: Received| #[trigger]
            call_ensures(Link::accept, (l, message, from, now, bank), received) ==> {
                let me = (*l).identity;
                let ours = match message {
                    PeerMessage::Init(init) => init.from_peer_id@ == guid_text(
                        me.peer_id.value,
                    ).subrange(0, 8),
                    PeerMessage::Lite { slot, .. } => slot == me.slot,
                    PeerMessage::Empty => false,
                };
                &&& received is Dropped <==> !ours
                &&& !ours ==> final(l).state == (*l).state
                &&& ours ==> final(l).state.endpoint == Some(from) && final(l).state.last_seen == now
                    && final(l).state.stats.sent == (*l).state.stats.sent
                &&& ours && (*l).state.stats.received < u32::MAX ==> final(l).state.stats.received
                    == (*l).state.stats.received + 1
                &&& message matches PeerMessage::Init(init) ==> (ours ==> match init.payload {
                    Some(InitPayload::Punch { target_port }) => {
                        &&& received matches Received::Answer(answer)
                        &&& answer.payload == Some(InitPayload::PunchAck { target_port })
                        &&& answer.from_peer_id@ == guid_text(me.my_peer_id.value).subrange(0, 8)
                        &&& answer.to_peer_id@ == guid_text(me.peer_id.value).subrange(0, 8)
                        &&& answer.session_id@ == guid_text(me.session_id.value)
                        &&& answer.slot == me.slot
                    },
                    _ => received is Noted,
                })
            },
{
    assert forall|l: &mut Link, bank: &mut Bank, received: Received| #[trigger]
        call_ensures(Link::accept, (l, message, from, now, bank), received) implies {
        let me = (*l).identity;
        let ours = match message {
            PeerMessage::Init(init) => init.from_peer_id@ == guid_text(me.peer_id.value).subrange(
                0,
                8,
            ),
            PeerMessage::Lite { slot, .. } => slot == me.slot,
            PeerMessage::Empty => false,
        };
        &&& received is Dropped <==> !ours
        &&& !ours ==> final(l).state == (*l).state
        &&& ours ==> final(l).state.endpoint == Some(from) && final(l).state.last_seen == now
            && final(l).state.stats.sent == (*l).state.stats.sent
        &&& ours && (*l).state.stats.received < u32::MAX ==> final(l).state.stats.received
            == (*l).state.stats.received + 1
        &&& message matches PeerMessage::Init(init) ==> (ours ==> match init.payload {
            Some(InitPayload::Punch { target_port }) => {
                &&& received matches Received::Answer(answer)
                &&& answer.payload == Some(InitPayload::PunchAck { target_port })
                &&& answer.from_peer_id@ == guid_text(me.my_peer_id.value).subrange(0, 8)
                &&& answer.to_peer_id@ == guid_text(me.peer_id.value).subrange(0, 8)
                &&& answer.session_id@ == guid_text(me.session_id.value)
                &&& answer.slot == me.slot
            },
            _ => received is Noted,
        })
    } by {
        let me = (*l).identity;
        assert(guid_text(me.peer_id.value).take(8) =~= guid_text(me.peer_id.value).subrange(0, 8));
        assert(guid_text(me.my_peer_id.value).take(8) =~= guid_text(me.my_peer_id.value).subrange(
            0,
            8,
        ));
    }
}

/// What one end knocks with the other end takes for a knock of its peer, and what the other end
/// answers the first one takes for an answer of its own: they call each other by the same names.
pub proof fn law_both_ends_know_each_other(
    a: &PeerIdentity,
    b: &PeerIdentity,
    knock: InitMessage,
    target_port: u32,
    from: Endpoint,
    now: u64,
)
    requires
        a.my_peer_id == b.peer_id,
        a.peer_id == b.my_peer_id,
        call_ensures(PeerIdentity::init, (a, InitPayload::Punch { target_port }), knock),
    ensures
        forall|l: &mut Link, bank: &mut Bank, received: Received| #[trigger]
            call_ensures(Link::accept, (l, PeerMessage::Init(knock), from, now, bank), received) && (
            *l).identity == *b ==> (received matches Received::Answer(answer) && answer.payload
                == Some(InitPayload::PunchAck { target_port }) && answer.from_peer_id@
                == knock.to_peer_id@ && answer.to_peer_id@ == knock.from_peer_id@),
{
}

/// A hole is lost as soon as nothing valid came for as long as is waited; before that, the rest of
/// that time is left.
pub proof fn law_patience_runs_out(state: &LinkState, now: u64, timeout: u64, left: Option<u64>)
    requires
        call_ensures(LinkState::patience, (state, now, timeout), left),
        now >= state.last_seen,
    ensures
        left is None <==> now >= state.last_seen + timeout,
        left matches Some(t) ==> now + t == state.last_seen + timeout,
{
}

/// Packets that are sent are counted, and change nothing else of the way to the peer.
pub proof fn law_sent_packets_are_counted()
    ensures
        forall|s: &mut LinkState| #[trigger]
            call_ensures(LinkState::note_sent, (s,), ()) && (*s).stats.sent < u32::MAX ==> {
                &&& final(s).stats.sent == (*s).stats.sent + 1
                &&& final(s).stats.received == (*s).stats.received
                &&& final(s).endpoint == (*s).endpoint && final(s).last_seen == (*s).last_seen
            },
{
}

/// Keep-alives are numbered one after the other.
pub proof fn law_keepalives_are_numbered()
    ensures
        forall|l: &mut Link, payload: LitePayload| #[trigger]
            call_ensures(Link::keepalive, (l,), payload) && (*l).seq < u32::MAX ==> {
                &&& payload matches LitePayload::KeepAlive { seq } && seq == (*l).seq
                &&& final(l).seq == (*l).seq + 1
                &&& final(l).state == (*l).state
            },
{
}

/// What a signed packet holds is acted on if its slot is ours: payload of up to 1500 bytes is handed
/// on with all that goes with it, longer payload only shows that the peer is there. A packet of
/// another slot is dropped, and one that is not of the frequent kind has to be read as a message.
pub proof fn law_signed_packets_are_acted_on(
    bytes: &[u8],
    fast: Option<Fast<'_>>,
    from: Endpoint,
    now: u64,
)
    requires
        call_ensures(parse, (bytes,), fast),
    ensures
        forall|l: &mut Link, buf: &mut [u8], bank: &mut Bank, received: Received| #[trigger]
            call_ensures(Link::receive, (l, buf, from, now, bank), received) && acceptable(
                (*l).recv,
                (*buf)@,
            ) && bytes@ == masked((*buf)@, (*l).recv.xor@).skip(24) ==> {
                let me = (*l).identity.slot;
                let slot = match fast {
                    Some(Fast::Data { slot, .. }) => slot,
                    Some(Fast::Wrapped { slot, .. }) => slot,
                    Some(Fast::Ordered { slot, .. }) => slot,
                    None => 0,
                };
                let payload = match fast {
                    Some(Fast::Data { payload, .. }) => payload@,
                    Some(Fast::Wrapped { payload, .. }) => payload@,
                    Some(Fast::Ordered { payload, .. }) => payload@,
                    None => Seq::empty(),
                };
                &&& fast is None ==> received is Message && final(l).state == (*l).state
                &&& fast is Some && slot != me ==> received is Dropped && final(l).state == (*l).state
                &&& fast is Some && slot == me ==> {
                    &&& final(l).state.endpoint == Some(from) && final(l).state.last_seen == now
                    &&& payload.len() > 1500 ==> received is Noted
                    &&& payload.len() <= 1500 ==> (received matches Received::Event(event) && match fast {
                        Some(Fast::Data { .. }) => event matches LinkEvent::PeerData {
                            slot: s,
                            payload: p,
                        } && s == me && p@ == payload,
                        Some(Fast::Wrapped { seq, client_id, flow, .. }) =>
                            event matches LinkEvent::PeerWrapped {
                            slot: s,
                            seq: n,
                            client_id: c,
                            flow: f,
                            payload: p,
                        } && s == me && n == seq && c == client_id && f == flow && p@ == payload,
                        Some(Fast::Ordered { flow, seq, .. }) => event matches LinkEvent::PeerOrdered {
                            slot: s,
                            flow: f,
                            seq: n,
                            payload: p,
                        } && s == me && f == flow && n == seq && p@ == payload,
                        None => true,
                    })
                }
            },
{
    assert forall|l: &mut Link, buf: &mut [u8], bank: &mut Bank, received: Received| #[trigger]
        call_ensures(Link::receive, (l, buf, from, now, bank), received) && acceptable(
            (*l).recv,
            (*buf)@,
        ) && bytes@ == masked((*buf)@, (*l).recv.xor@).skip(24) implies {
        let me = (*l).identity.slot;
        let slot = match fast {
            Some(Fast::Data { slot, .. }) => slot,
            Some(Fast::Wrapped { slot, .. }) => slot,
            Some(Fast::Ordered { slot, .. }) => slot,
            None => 0,
        };
        let payload = match fast {
            Some(Fast::Data { payload, .. }) => payload@,
            Some(Fast::Wrapped { payload, .. }) => payload@,
            Some(Fast::Ordered { payload, .. }) => payload@,
            None => Seq::empty(),
        };
        &&& fast is None ==> received is Message && final(l).state == (*l).state
        &&& fast is Some && slot != me ==> received is Dropped && final(l).state == (*l).state
        &&& fast is Some && slot == me ==> {
            &&& final(l).state.endpoint == Some(from) && final(l).state.last_seen == now
            &&& payload.len() > 1500 ==> received is Noted
            &&& payload.len() <= 1500 ==> (received matches Received::Event(event) && match fast {
                Some(Fast::Data { .. }) => event matches LinkEvent::PeerData {
                    slot: s,
                    payload: p,
                } && s == me && p@ == payload,
                Some(Fast::Wrapped { seq, client_id, flow, .. }) =>
                    event matches LinkEvent::PeerWrapped {
                    slot: s,
                    seq: n,
                    client_id: c,
                    flow: f,
                    payload: p,
                } && s == me && n == seq && c == client_id && f == flow && p@ == payload,
                Some(Fast::Ordered { flow, seq, .. }) => event matches LinkEvent::PeerOrdered {
                    slot: s,
                    flow: f,
                    seq: n,
                    payload: p,
                } && s == me && f == flow && n == seq && p@ == payload,
                None => true,
            })
        }
    } by {
        assert(final(buf)@.skip(24) == bytes@);
        if let Some(f) = fast {
            assert(parsed(bytes@) == Some(f@));
        }
    }
}

} // verus!
