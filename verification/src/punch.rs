//! Punching one hole (slot), and what travels through it.
//!
//! From one socket the ports around the addresses of the peer are knocked at in turn. Whichever
//! valid packet of the peer comes first opens the hole. The address of a sender is not checked:
//! every packet whose signature and slot (or name) are right makes its source the current
//! endpoint of the peer, and everything is sent there.

use crate::auth::{peer_name, PairSecret, AUTH_LEN};
use crate::codec::{acceptable, encoded, law_decode_reads_what_encode_wrote, mask, masked};
use crate::guid::{guid_text, Guid};
use crate::link_id::{link_id, PeerLinkId};
use crate::net::Endpoint;
use crate::pool::{Bank, Packet, PACKET_CAP};
use crate::rendezvous::Rendezvous;
use crate::seal::{counter_in, RecvKeys, SendKeys};
use crate::text::same_text;
use crate::wire::write::{
    data_body, encode_data, encode_ordered, encode_wrapped, encodes, law_parse_reads_data,
    law_parse_reads_ordered, law_parse_reads_wrapped, message, ordered_body, wrapped_body,
};
use crate::wire::{parse, parsed, Fast, FastModel, LITE_DATA, LITE_ORDERED, LITE_WRAPPED};
use vstd::prelude::*;
use vstd::slice::slice_subrange;

verus! {

/// The counters of one hole. They start over after 32 bits.
#[derive(Clone, Copy, Debug, PartialEq, Eq, Structural)]
pub struct LinkStats {
    pub sent: u32,
    pub received: u32,
}

impl LinkStats {
    pub fn snapshot(&self) -> (stats: (u64, u64))
        ensures
            stats.0 == self.sent,
            stats.1 == self.received,
    {
        (self.sent as u64, self.received as u64)
    }
}

impl Default for LinkStats {
    fn default() -> (stats: Self)
        ensures
            stats == (LinkStats { sent: 0, received: 0 }),
    {
        LinkStats { sent: 0, received: 0 }
    }
}

/// The counters of one hole at the peer.
#[derive(Clone, Copy, Debug, PartialEq, Eq, Structural)]
pub struct PeerLinkStat {
    pub slot: u8,
    pub sent: u64,
    pub received: u64,
}

/// What came through a hole.
#[allow(inconsistent_fields)]
pub enum LinkEvent {
    /// The counters of all holes of the peer.
    PeerStats(Vec<PeerLinkStat>),
    /// The peer wants the hole of this slot punched anew.
    DeleteLink { slot: u8 },
    /// The record of another slot of the peer.
    PeerRendezvous(Rendezvous),
    /// Payload.
    PeerData { slot: u8, payload: Packet },
    /// Payload that is wrapped for a client; `flow` is the bucket of a flow in which `seq` counts.
    PeerWrapped { slot: u8, seq: u64, client_id: u32, flow: Option<u32>, payload: Packet },
    /// A packet with a number in a flow.
    PeerOrdered { slot: u8, flow: u32, seq: u64, payload: Packet },
}

/// How to punch; durations are in nanoseconds.
#[derive(Clone, Copy, Debug, PartialEq, Eq, Structural)]
pub struct PunchConfig {
    /// How many more ports are tried on either side.
    pub margin: u16,
    pub punch_interval: u64,
    /// A hole through which nothing valid came for so long is lost.
    pub keepalive_timeout: u64,
}

impl Default for PunchConfig {
    fn default() -> (config: Self)
        ensures
            config == (PunchConfig {
                margin: 1000,
                punch_interval: 50_000_000,
                keepalive_timeout: 15_000_000_000,
            }),
    {
        PunchConfig {
            margin: 1000,
            punch_interval: 50_000_000,
            keepalive_timeout: 15_000_000_000,
        }
    }
}

/// What a punching packet says.
#[derive(Clone, Copy, Debug, PartialEq, Eq, Structural)]
pub enum InitPayload {
    Punch { target_port: u32 },
    PunchAck { target_port: u32 },
}

/// A packet of the punching phase: the session and the names of the peers.
pub struct InitMessage {
    pub session_id: String,
    pub from_peer_id: String,
    pub to_peer_id: String,
    pub slot: u32,
    pub payload: Option<InitPayload>,
}

/// One line of the counters that a peer sends.
#[derive(Clone, Copy, Debug, PartialEq, Eq, Structural)]
pub struct LinkStat {
    pub slot: u32,
    pub sent: u64,
    pub received: u64,
}

/// What a packet through an open hole says.
#[allow(inconsistent_fields)]
pub enum LitePayload {
    Stats(Vec<LinkStat>),
    DeleteLink { slot: u32 },
    Rendezvous(Rendezvous),
    Data { payload: Vec<u8> },
    Wrapped { seq: u64, client_id: u32, flow: Option<u32>, payload: Vec<u8> },
    Ordered { flow: u32, seq: u64, payload: Vec<u8> },
    KeepAlive { seq: u64 },
}

/// A message of the peer.
pub enum PeerMessage {
    Init(InitMessage),
    Lite { slot: u32, payload: Option<LitePayload> },
    Empty,
}

/// Who is at both ends of a hole.
#[derive(Clone, Copy)]
pub struct PeerIdentity {
    pub session_id: Guid,
    pub peer_session_id: Guid,
    pub my_peer_id: Guid,
    pub peer_id: Guid,
    pub slot: u8,
    pub pair: PairSecret,
}

impl PeerIdentity {
    /// The identifier of the hole, the same at both ends.
    pub fn link_id(&self) -> (id: PeerLinkId)
        ensures
            id@ == link_id(self.session_id, self.peer_session_id),
    {
        PeerLinkId::new(self.session_id, self.peer_session_id)
    }

    /// The envelope of the punching phase; it holds the names of the peers, not their GUIDs.
    pub fn init(&self, payload: InitPayload) -> (message: InitMessage)
        ensures
            message.session_id@ == guid_text(self.session_id.value),
            message.from_peer_id@ == guid_text(self.my_peer_id.value).take(8),
            message.to_peer_id@ == guid_text(self.peer_id.value).take(8),
            message.slot == self.slot,
            message.payload == Some(payload),
    {
        InitMessage {
            session_id: self.session_id.text(),
            from_peer_id: peer_name(&self.my_peer_id),
            to_peer_id: peer_name(&self.peer_id),
            slot: self.slot as u32,
            payload: Some(payload),
        }
    }

    /// The envelope of an open hole: the slot alone.
    pub fn lite(&self, payload: LitePayload) -> (message: PeerMessage)
        ensures
            message == (PeerMessage::Lite { slot: self.slot as u32, payload: Some(payload) }),
    {
        PeerMessage::Lite { slot: self.slot as u32, payload: Some(payload) }
    }
}

/// The counters whose slot fits a byte.
pub open spec fn fitting(links: Seq<LinkStat>) -> Seq<PeerLinkStat>
    decreases links.len(),
{
    if links.len() == 0 {
        Seq::empty()
    } else {
        let l = links.last();
        if l.slot <= u8::MAX {
            fitting(links.drop_last()).push(
                PeerLinkStat { slot: l.slot as u8, sent: l.sent, received: l.received },
            )
        } else {
            fitting(links.drop_last())
        }
    }
}

fn fitting_stats(links: &Vec<LinkStat>) -> (stats: Vec<PeerLinkStat>)
    ensures
        stats@ == fitting(links@),
{
    let mut stats: Vec<PeerLinkStat> = Vec::new();
    let mut i: usize = 0;
    assert(links@.take(0) =~= Seq::<LinkStat>::empty());
    while i < links.len()
        invariant
            i <= links@.len(),
            stats@ == fitting(links@.take(i as int)),
        decreases links@.len() - i,
    {
        proof {
            assert(links@.take(i + 1).drop_last() =~= links@.take(i as int));
            assert(links@.take(i + 1).last() == links@[i as int]);
        }
        let l = links[i];
        if l.slot <= 255 {
            stats.push(PeerLinkStat { slot: l.slot as u8, sent: l.sent, received: l.received });
        }
        i += 1;
    }
    assert(links@.take(links@.len() as int) =~= links@);
    stats
}

/// What a message through an open hole means for the manager of the holes.
pub open spec fn means(payload: Option<LitePayload>, slot: u8, event: Option<LinkEvent>) -> bool {
    match payload {
        Some(LitePayload::Stats(links)) => event matches Some(LinkEvent::PeerStats(stats))
            && stats@ == fitting(links@),
        Some(LitePayload::DeleteLink { slot: deleted }) => event == if deleted <= u8::MAX {
            Some(LinkEvent::DeleteLink { slot: deleted as u8 })
        } else {
            None
        },
        Some(LitePayload::Rendezvous(record)) => event == Some(LinkEvent::PeerRendezvous(record)),
        Some(LitePayload::Data { payload: data }) => if data@.len() <= PACKET_CAP {
            event matches Some(LinkEvent::PeerData { slot: s, payload: p }) && s == slot && p@
                == data@
        } else {
            event is None
        },
        Some(LitePayload::Wrapped { seq, client_id, flow, payload: data }) => if data@.len()
            <= PACKET_CAP {
            event matches Some(
                LinkEvent::PeerWrapped { slot: s, seq: n, client_id: c, flow: f, payload: p },
            ) && s == slot && n == seq && c == client_id && f == flow && p@ == data@
        } else {
            event is None
        },
        Some(LitePayload::Ordered { flow, seq, payload: data }) => if data@.len() <= PACKET_CAP {
            event matches Some(LinkEvent::PeerOrdered { slot: s, flow: f, seq: n, payload: p }) && s
                == slot && f == flow && n == seq && p@ == data@
        } else {
            event is None
        },
        Some(LitePayload::KeepAlive { seq: _ }) => event is None,
        None => event is None,
    }
}

/// The bank after an event: a packet that it carries lies in a buffer of the bank.
pub open spec fn banked(before: Bank, after: Bank, event: Option<LinkEvent>) -> bool {
    match event {
        Some(LinkEvent::PeerData { .. }) => before.lends(&after),
        Some(LinkEvent::PeerWrapped { .. }) => before.lends(&after),
        Some(LinkEvent::PeerOrdered { .. }) => before.lends(&after),
        _ => after == before,
    }
}

/// The bank after a packet from the socket.
pub open spec fn banked_by(before: Bank, after: Bank, received: Received) -> bool {
    match received {
        Received::Event(event) => banked(before, after, Some(event)),
        _ => after == before,
    }
}

/// Takes a message through the open hole of `slot`; a packet is copied into a buffer of the bank.
pub fn handle_lite(payload: Option<LitePayload>, slot: u8, bank: &mut Bank) -> (event: Option<
    LinkEvent,
>)
    ensures
        means(payload, slot, event),
        banked(*old(bank), *final(bank), event),
{
    match payload {
        Some(LitePayload::Stats(links)) => Some(LinkEvent::PeerStats(fitting_stats(&links))),
        Some(LitePayload::DeleteLink { slot: deleted }) => if deleted <= 255 {
            Some(LinkEvent::DeleteLink { slot: deleted as u8 })
        } else {
            None
        },
        Some(LitePayload::Rendezvous(record)) => Some(LinkEvent::PeerRendezvous(record)),
        Some(LitePayload::Data { payload: data }) => match Packet::copy_from_bank(
            bank,
            data.as_slice(),
        ) {
            Some(payload) => Some(LinkEvent::PeerData { slot, payload }),
            None => None,
        },
        Some(LitePayload::Wrapped { seq, client_id, flow, payload: data }) => match Packet::copy_from_bank(
            bank,
            data.as_slice(),
        ) {
            Some(payload) => Some(LinkEvent::PeerWrapped { slot, seq, client_id, flow, payload }),
            None => None,
        },
        Some(LitePayload::Ordered { flow, seq, payload: data }) => match Packet::copy_from_bank(
            bank,
            data.as_slice(),
        ) {
            Some(payload) => Some(LinkEvent::PeerOrdered { slot, flow, seq, payload }),
            None => None,
        },
        Some(LitePayload::KeepAlive { seq: _ }) => None,
        None => None,
    }
}

/// The slot that a data packet names.
pub open spec fn slot_in(fast: FastModel) -> u32 {
    match fast {
        FastModel::Data { slot, .. } => slot,
        FastModel::Wrapped { slot, .. } => slot,
        FastModel::Ordered { slot, .. } => slot,
    }
}

/// The payload of a data packet.
pub open spec fn payload_in(fast: FastModel) -> Seq<u8> {
    match fast {
        FastModel::Data { payload, .. } => payload,
        FastModel::Wrapped { payload, .. } => payload,
        FastModel::Ordered { payload, .. } => payload,
    }
}

/// The event carries what the data packet holds.
pub open spec fn carries(event: LinkEvent, fast: FastModel, slot: u8) -> bool {
    match fast {
        FastModel::Data { payload, .. } => event matches LinkEvent::PeerData { slot: s, payload: p }
            && s == slot && p@ == payload,
        FastModel::Wrapped { seq, payload, client_id, flow, .. } =>
            event matches LinkEvent::PeerWrapped { slot: s, seq: n, client_id: c, flow: f, payload: p }
            && s == slot && n == seq && c == client_id && f == flow && p@ == payload,
        FastModel::Ordered { flow, seq, payload, .. } =>
            event matches LinkEvent::PeerOrdered { slot: s, flow: f, seq: n, payload: p } && s
            == slot && f == flow && n == seq && p@ == payload,
    }
}

/// The slot that a data packet names.
fn slot_of(fast: &Fast<'_>) -> (slot: u32)
    ensures
        slot == slot_in(fast@),
{
    match *fast {
        Fast::Data { slot, .. } => slot,
        Fast::Wrapped { slot, .. } => slot,
        Fast::Ordered { slot, .. } => slot,
    }
}

/// The event of a data packet; none, where the payload is larger than a buffer.
fn event_of(fast: Fast<'_>, slot: u8, bank: &mut Bank) -> (event: Option<LinkEvent>)
    ensures
        event is Some <==> payload_in(fast@).len() <= PACKET_CAP,
        event matches Some(e) ==> carries(e, fast@, slot),
        banked(*old(bank), *final(bank), event),
{
    match fast {
        Fast::Data { slot: _, payload } => match Packet::copy_from_bank(bank, payload) {
            Some(payload) => Some(LinkEvent::PeerData { slot, payload }),
            None => None,
        },
        Fast::Wrapped { slot: _, seq, payload, client_id, flow } => match Packet::copy_from_bank(
            bank,
            payload,
        ) {
            Some(payload) => Some(LinkEvent::PeerWrapped { slot, seq, client_id, flow, payload }),
            None => None,
        },
        Fast::Ordered { slot: _, flow, seq, payload } => match Packet::copy_from_bank(bank, payload) {
            Some(payload) => Some(LinkEvent::PeerOrdered { slot, flow, seq, payload }),
            None => None,
        },
    }
}

/// What is known of the way to the peer.
#[derive(Clone, Copy, Debug, PartialEq, Eq)]
pub struct LinkState {
    /// Where the last valid packet came from: everything is sent there.
    pub endpoint: Option<Endpoint>,
    /// When it came, in nanoseconds.
    pub last_seen: u64,
    pub stats: LinkStats,
}

/// The state after a valid packet.
pub open spec fn noted(before: LinkState, from: Endpoint, now: u64) -> LinkState {
    LinkState {
        endpoint: Some(from),
        last_seen: now,
        stats: LinkStats {
            sent: before.stats.sent,
            received: before.stats.received.wrapping_add(1),
        },
    }
}

impl LinkState {
    /// A valid packet proves that the peer is reachable where it came from.
    pub fn note_packet(&mut self, from: Endpoint, now: u64)
        ensures
            *final(self) == noted(*old(self), from, now),
    {
        self.endpoint = Some(from);
        self.last_seen = now;
        self.stats.received = self.stats.received.wrapping_add(1);
    }

    /// A packet was sent.
    pub fn note_sent(&mut self)
        ensures
            *final(self) == (LinkState {
                stats: LinkStats {
                    sent: old(self).stats.sent.wrapping_add(1),
                    received: old(self).stats.received,
                },
                ..*old(self)
            }),
    {
        self.stats.sent = self.stats.sent.wrapping_add(1);
    }

    /// How much longer to wait before the hole counts as lost; nothing, when it is lost: no valid
    /// packet came for `timeout`.
    pub fn patience(&self, now: u64, timeout: u64) -> (left: Option<u64>)
        ensures
            left is None <==> self.silence(now) >= timeout,
            left matches Some(t) ==> t == timeout - self.silence(now),
    {
        let silent: u64 = now.saturating_sub(self.last_seen);
        if silent >= timeout {
            None
        } else {
            Some(timeout - silent)
        }
    }

    /// How long nothing valid has come.
    pub open spec fn silence(self, now: u64) -> int {
        if now >= self.last_seen {
            now - self.last_seen
        } else {
            0
        }
    }
}

/// What came of a packet.
pub enum Received {
    /// It is foreign, forged, repeated or of another slot: nothing changes.
    Dropped,
    /// It is valid and says nothing further.
    Noted,
    /// It is valid and says this.
    Event(LinkEvent),
    /// Its signature is right and its message is not one of the frequent ones: it has to be read
    /// and handed to [`Link::accept`].
    Message,
    /// It knocks, and has to be answered where it came from.
    Answer(InitMessage),
}

/// One hole: both ends, the keys of both directions and the way to the peer.
pub struct Link {
    pub identity: PeerIdentity,
    pub send: SendKeys,
    pub recv: RecvKeys,
    pub state: LinkState,
    /// The number of the next keep-alive.
    pub seq: u32,
}

impl Link {
    /// A hole that is to be punched.
    pub fn new(identity: PeerIdentity, now: u64) -> (link: Self)
        ensures
            link.identity == identity,
            link.state == (LinkState {
                endpoint: None,
                last_seen: now,
                stats: LinkStats { sent: 0, received: 0 },
            }),
            link.seq == 0,
            link.send.sealer.next() == 0,
            identity.pair.link_keys_are(
                identity.session_id,
                identity.peer_session_id,
                link.send,
                link.recv,
            ),
    {
        let (send, recv) = identity.pair.link_keys(identity.session_id, identity.peer_session_id);
        Link {
            identity,
            send,
            recv,
            state: LinkState { endpoint: None, last_seen: now, stats: LinkStats::default() },
            seq: 0,
        }
    }

    /// Takes a packet from the socket: takes the mask off (in place), checks the signature and
    /// reads a data packet, which is copied into a buffer of the bank.
    pub fn receive(&mut self, buf: &mut [u8], from: Endpoint, now: u64, bank: &mut Bank) -> (received:
        Received)
        ensures
            banked_by(*old(bank), *final(bank), received),
            final(self).identity == old(self).identity,
            final(self).send == old(self).send,
            final(self).seq == old(self).seq,
            final(self).recv.xor == old(self).recv.xor,
            final(self).recv.opener.key() == old(self).recv.opener.key(),
            final(buf)@ == masked(old(buf)@, old(self).recv.xor@),
            !acceptable(old(self).recv, old(buf)@) ==> {
                &&& received is Dropped
                &&& final(self).state == old(self).state
                &&& final(self).recv.opener.window() == old(self).recv.opener.window()
            },
            final(self).recv.opener.window() is Some <==> old(self).recv.opener.window() is Some,
            acceptable(old(self).recv, old(buf)@) ==> {
                &&& (old(self).recv.opener.window() matches Some(w) ==> w.accepted(
                    counter_in(final(buf)@),
                    final(self).recv.opener.window()->0,
                ))
                &&& match parsed(final(buf)@.skip(24)) {
                    Some(fast) => if slot_in(fast) == old(self).identity.slot {
                        &&& final(self).state == noted(old(self).state, from, now)
                        &&& if payload_in(fast).len() <= PACKET_CAP {
                            received matches Received::Event(e) && carries(
                                e,
                                fast,
                                old(self).identity.slot,
                            )
                        } else {
                            received is Noted
                        }
                    } else {
                        received is Dropped && final(self).state == old(self).state
                    },
                    None => received is Message && final(self).state == old(self).state,
                }
            },
    {
        mask(buf, &self.recv.xor);
        if self.recv.opener.open(buf).is_none() {
            return Received::Dropped;
        }
        let size: usize = buf.len();
        let message: &[u8] = slice_subrange(buf, AUTH_LEN, size);
        assert(buf@.subrange(24, size as int) =~= buf@.skip(24));
        match parse(message) {
            Some(fast) => {
                if slot_of(&fast) != self.identity.slot as u32 {
                    return Received::Dropped;
                }
                self.state.note_packet(from, now);
                match event_of(fast, self.identity.slot, bank) {
                    Some(event) => Received::Event(event),
                    None => Received::Noted,
                }
            },
            None => Received::Message,
        }
    }

    /// Takes a message whose signature was right and that is not one of the frequent ones.
    pub fn accept(
        &mut self,
        message: PeerMessage,
        from: Endpoint,
        now: u64,
        bank: &mut Bank,
    ) -> (received: Received)
        ensures
            banked_by(*old(bank), *final(bank), received),
            final(self).identity == old(self).identity,
            final(self).send == old(self).send,
            final(self).recv == old(self).recv,
            final(self).seq == old(self).seq,
            !welcome(old(self).identity, message) ==> received is Dropped && final(self).state
                == old(self).state,
            welcome(old(self).identity, message) ==> final(self).state == noted(
                old(self).state,
                from,
                now,
            ),
            welcome(old(self).identity, message) ==> match message {
                PeerMessage::Init(init) => match init.payload {
                    Some(InitPayload::Punch { target_port }) => received matches Received::Answer(
                        answer,
                    ) && acks(old(self).identity, target_port, answer),
                    _ => received is Noted,
                },
                PeerMessage::Lite { slot, payload } => match received {
                    Received::Event(e) => means(payload, old(self).identity.slot, Some(e)),
                    Received::Noted => means(payload, old(self).identity.slot, None),
                    _ => false,
                },
                PeerMessage::Empty => false,
            },
    {
        match message {
            PeerMessage::Init(init) => {
                if !same_text(
                    init.from_peer_id.as_str(),
                    peer_name(&self.identity.peer_id).as_str(),
                ) {
                    return Received::Dropped;
                }
                self.state.note_packet(from, now);
                match init.payload {
                    Some(InitPayload::Punch { target_port }) => Received::Answer(
                        self.identity.init(InitPayload::PunchAck { target_port }),
                    ),
                    _ => Received::Noted,
                }
            },
            PeerMessage::Lite { slot, payload } => {
                if slot != self.identity.slot as u32 {
                    return Received::Dropped;
                }
                self.state.note_packet(from, now);
                match handle_lite(payload, self.identity.slot, bank) {
                    Some(event) => Received::Event(event),
                    None => Received::Noted,
                }
            },
            PeerMessage::Empty => Received::Dropped,
        }
    }

    /// Writes a packet with payload into `out`; its length, or nothing, where it does not fit.
    pub fn data_packet(&mut self, payload: &[u8], out: &mut [u8]) -> (total: Option<usize>)
        ensures
            encodes(
                message(old(self).identity.slot as u32, LITE_DATA, data_body(payload@)),
                old(self).send,
                final(self).send,
                old(out)@,
                final(out)@,
                total,
            ),
            final(self).identity == old(self).identity,
            final(self).recv == old(self).recv,
            final(self).state == old(self).state,
            final(self).seq == old(self).seq,
    {
        encode_data(self.identity.slot as u32, payload, &mut self.send, out)
    }

    /// Writes a packet with payload that is wrapped for a client into `out`; its length, or
    /// nothing, where it does not fit.
    pub fn wrapped_packet(
        &mut self,
        seq: u64,
        client_id: u32,
        flow: Option<u32>,
        payload: &[u8],
        out: &mut [u8],
    ) -> (total: Option<usize>)
        ensures
            encodes(
                message(
                    old(self).identity.slot as u32,
                    LITE_WRAPPED,
                    wrapped_body(seq, payload@, client_id, flow),
                ),
                old(self).send,
                final(self).send,
                old(out)@,
                final(out)@,
                total,
            ),
            final(self).identity == old(self).identity,
            final(self).recv == old(self).recv,
            final(self).state == old(self).state,
            final(self).seq == old(self).seq,
    {
        encode_wrapped(
            self.identity.slot as u32,
            seq,
            payload,
            client_id,
            flow,
            &mut self.send,
            out,
        )
    }

    /// Writes a packet with a number in a flow into `out`; its length, or nothing, where it does
    /// not fit.
    pub fn ordered_packet(&mut self, flow: u32, seq: u64, payload: &[u8], out: &mut [u8]) -> (total:
        Option<usize>)
        ensures
            encodes(
                message(
                    old(self).identity.slot as u32,
                    LITE_ORDERED,
                    ordered_body(flow, seq, payload@),
                ),
                old(self).send,
                final(self).send,
                old(out)@,
                final(out)@,
                total,
            ),
            final(self).identity == old(self).identity,
            final(self).recv == old(self).recv,
            final(self).state == old(self).state,
            final(self).seq == old(self).seq,
    {
        encode_ordered(self.identity.slot as u32, flow, seq, payload, &mut self.send, out)
    }

    /// Takes the number of the next keep-alive.
    pub fn keepalive(&mut self) -> (payload: LitePayload)
        ensures
            payload == (LitePayload::KeepAlive { seq: old(self).seq as u64 }),
            final(self).seq == old(self).seq.wrapping_add(1),
            final(self).identity == old(self).identity,
            final(self).send == old(self).send,
            final(self).recv == old(self).recv,
            final(self).state == old(self).state,
    {
        let seq: u32 = self.seq;
        self.seq = seq.wrapping_add(1);
        LitePayload::KeepAlive { seq: seq as u64 }
    }
}

/// The answer to a knock.
pub open spec fn acks(identity: PeerIdentity, target_port: u32, answer: InitMessage) -> bool {
    &&& answer.payload == Some(InitPayload::PunchAck { target_port })
    &&& answer.session_id@ == guid_text(identity.session_id.value)
    &&& answer.from_peer_id@ == guid_text(identity.my_peer_id.value).take(8)
    &&& answer.to_peer_id@ == guid_text(identity.peer_id.value).take(8)
    &&& answer.slot == identity.slot
}

/// The message is of our peer: a knock with its name, or a message of our slot.
pub open spec fn welcome(identity: PeerIdentity, message: PeerMessage) -> bool {
    match message {
        PeerMessage::Init(init) => init.from_peer_id@ == guid_text(identity.peer_id.value).take(8),
        PeerMessage::Lite { slot, .. } => slot == identity.slot,
        PeerMessage::Empty => false,
    }
}

/// What one end seals and masks is what the other end takes the mask off and opens.
pub open spec fn facing(send: SendKeys, recv: RecvKeys) -> bool {
    &&& recv.xor@ == send.xor@
    &&& recv.opener.key() == send.sealer.key()
}

/// The two ends of a hole, with each other's sessions and the secret of the pair, come to keys
/// that face each other, in both directions.
pub proof fn law_both_ends_have_the_same_keys(
    a: PairSecret,
    b: PairSecret,
    mine: Guid,
    theirs: Guid,
    a_keys: (SendKeys, RecvKeys),
    b_keys: (SendKeys, RecvKeys),
)
    requires
        a@ == b@,
        a.link_keys_are(mine, theirs, a_keys.0, a_keys.1),
        b.link_keys_are(theirs, mine, b_keys.0, b_keys.1),
    ensures
        facing(a_keys.0, b_keys.1),
        facing(b_keys.0, a_keys.1),
{
}

/// The message of a data packet.
pub open spec fn data_message(fast: FastModel) -> Seq<u8> {
    match fast {
        FastModel::Data { slot, payload } => message(slot, LITE_DATA, data_body(payload)),
        FastModel::Wrapped { slot, seq, payload, client_id, flow } => message(
            slot,
            LITE_WRAPPED,
            wrapped_body(seq, payload, client_id, flow),
        ),
        FastModel::Ordered { slot, flow, seq, payload } => message(
            slot,
            LITE_ORDERED,
            ordered_body(flow, seq, payload),
        ),
    }
}

/// A data packet that one end writes is accepted at the other end, unless the window against
/// repeated packets refuses its counter, and is read there as what was written.
pub proof fn law_data_crosses_the_hole(
    send: SendKeys,
    recv: RecvKeys,
    counter: u64,
    fast: FastModel,
)
    requires
        facing(send, recv),
        recv.opener.passes(counter),
        data_message(fast).len() <= u64::MAX,
    ensures
        ({
            let packet = encoded(send.xor@, send.sealer.key(), counter, data_message(fast));
            &&& acceptable(recv, packet)
            &&& parsed(masked(packet, recv.xor@).skip(24)) == Some(fast)
        }),
{
    law_decode_reads_what_encode_wrote(recv, counter, data_message(fast));
    match fast {
        FastModel::Data { slot, payload } => {
            law_parse_reads_data(slot, payload);
        },
        FastModel::Wrapped { slot, seq, payload, client_id, flow } => {
            law_parse_reads_wrapped(slot, seq, payload, client_id, flow);
        },
        FastModel::Ordered { slot, flow, seq, payload } => {
            law_parse_reads_ordered(slot, flow, seq, payload);
        },
    }
}

/// Unless told otherwise a peer tries 1000 ports more on either side, knocks every 50 milliseconds,
/// and gives a hole up after 15 seconds of silence.
pub proof fn law_holes_are_punched_by_default(config: PunchConfig)
    requires
        call_ensures(<PunchConfig as Default>::default, (), config),
    ensures
        config.margin == 1000,
        config.punch_interval == 50 * 1_000_000,
        config.keepalive_timeout == 15 * 1_000_000_000,
{
}

/// A hole starts without an address and with nothing counted; a valid packet tells the address and
/// the moment, and is counted.
pub proof fn law_packets_tell_where_the_peer_is(
    identity: PeerIdentity,
    start: u64,
    link: Link,
    from: Endpoint,
    now: u64,
    stats: LinkStats,
    shown: (u64, u64),
)
    requires
        call_ensures(Link::new, (identity, start), link),
        call_ensures(LinkStats::snapshot, (&stats,), shown),
    ensures
        link.identity == identity,
        link.state.endpoint is None && link.state.last_seen == start,
        link.state.stats.sent == 0 && link.state.stats.received == 0 && link.seq == 0,
        shown == (stats.sent as u64, stats.received as u64),
        forall|s: &mut LinkState| #[trigger]
            call_ensures(LinkState::note_packet, (s, from, now), ()) ==> {
                &&& final(s).endpoint == Some(from)
                &&& final(s).last_seen == now
                &&& final(s).stats.sent == s.stats.sent
                &&& s.stats.received < u32::MAX ==> final(s).stats.received == s.stats.received + 1
            },
{
}

/// A message of acquaintance says who it is from and to, by the names of the peers, with our
/// session and the slot; a short message says the slot. The identifier of the hole is the same at
/// both ends.
pub proof fn law_messages_say_who_they_are_from(
    me: PeerIdentity,
    payload: InitPayload,
    init: InitMessage,
    said: LitePayload,
    lite: PeerMessage,
    name: String,
    peer_name_text: String,
    session: String,
    other: PeerIdentity,
    id: PeerLinkId,
    other_id: PeerLinkId,
)
    requires
        call_ensures(PeerIdentity::init, (&me, payload), init),
        call_ensures(PeerIdentity::lite, (&me, said), lite),
        call_ensures(peer_name, (&me.my_peer_id,), name),
        call_ensures(peer_name, (&me.peer_id,), peer_name_text),
        call_ensures(Guid::text, (me.session_id,), session),
        other.session_id == me.peer_session_id,
        other.peer_session_id == me.session_id,
        call_ensures(PeerIdentity::link_id, (&me,), id),
        call_ensures(PeerIdentity::link_id, (&other,), other_id),
    ensures
        init.from_peer_id@ == name@,
        init.to_peer_id@ == peer_name_text@,
        init.session_id@ == session@,
        init.slot == me.slot,
        init.payload == Some(payload),
        lite == (PeerMessage::Lite { slot: me.slot as u32, payload: Some(said) }),
        id@ == other_id@,
{
}

} // verus!
