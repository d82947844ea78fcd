//! What the manager of the holes does about what comes through them.

use super::{link_is_bad, Incoming, MultiLinkOptions, WrappedInfo, MIN_STATS_SAMPLE, TARGET_LINKS};
use crate::punch::{LinkEvent, LinkStat, PeerLinkStat};
use crate::rendezvous::{peer_session_from, session_in, PeerSession, RecordError};
use crate::reorder::lateness::TunerModel;
use crate::reorder::session::SessionKey;
use crate::reorder::{ReorderModel, ReorderStats, Resequencer};
use vstd::prelude::*;

verus! {

/// What to do about an event. Packets that are ready for the application are handed out apart
/// from this.
pub enum ControlAction {
    /// Nothing further.
    Nothing,
    /// These holes are bad: punch each of them anew and tell the peer to do so too.
    Replace(Vec<u8>),
    /// The peer wants this hole punched anew.
    Redrop(u8),
    /// A session of the peer for the slot that it names.
    Feed(PeerSession),
    /// The peer sent a record that cannot be read.
    BadRecord(RecordError),
    /// A wrapped packet of a client whose number does not fit a byte.
    BadClient(u32),
}

/// How many packets came through the hole of a slot: nothing is known of a slot that is not live.
pub open spec fn received_on(received: Seq<(u8, u64)>, slot: u8) -> u64
    decreases received.len(),
{
    if received.len() == 0 {
        0
    } else if received[0].0 == slot {
        received[0].1
    } else {
        received_on(received.skip(1), slot)
    }
}

/// The peer's counters show the hole to be bad.
pub open spec fn is_bad(stat: PeerLinkStat, received: Seq<(u8, u64)>) -> bool {
    stat.sent >= MIN_STATS_SAMPLE && received_on(received, stat.slot) * 2 < stat.sent
}

/// The slots of the bad holes, in the order of the peer's counters.
pub open spec fn bad_slots(stats: Seq<PeerLinkStat>, received: Seq<(u8, u64)>) -> Seq<u8>
    decreases stats.len(),
{
    if stats.len() == 0 {
        Seq::empty()
    } else if is_bad(stats.last(), received) {
        bad_slots(stats.drop_last(), received).push(stats.last().slot)
    } else {
        bad_slots(stats.drop_last(), received)
    }
}

fn count_on(received: &Vec<(u8, u64)>, slot: u8) -> (count: u64)
    ensures
        count == received_on(received@, slot),
{
    let mut i: usize = 0;
    assert(received@.skip(0) =~= received@);
    while i < received.len()
        invariant
            i <= received@.len(),
            received_on(received@, slot) == received_on(received@.skip(i as int), slot),
        decreases received@.len() - i,
    {
        if received[i].0 == slot {
            return received[i].1;
        }
        assert(received@.skip(i as int).skip(1) =~= received@.skip(i + 1));
        i += 1;
    }
    0
}

/// The bad holes by the peer's counters and ours.
pub fn find_bad(stats: &Vec<PeerLinkStat>, received: &Vec<(u8, u64)>) -> (slots: Vec<u8>)
    ensures
        slots@ == bad_slots(stats@, received@),
{
    let mut slots: Vec<u8> = Vec::new();
    let mut i: usize = 0;
    assert(stats@.take(0) =~= Seq::<PeerLinkStat>::empty());
    while i < stats.len()
        invariant
            i <= stats@.len(),
            slots@ == bad_slots(stats@.take(i as int), received@),
        decreases stats@.len() - i,
    {
        proof {
            assert(stats@.take(i + 1).drop_last() =~= stats@.take(i as int));
            assert(stats@.take(i + 1).last() == stats@[i as int]);
        }
        if link_is_bad(stats[i].sent, count_on(received, stats[i].slot)) {
            slots.push(stats[i].slot);
        }
        i += 1;
    }
    assert(stats@.take(stats@.len() as int) =~= stats@);
    slots
}

/// The table of our counters that is sent to the peer.
pub fn stats_table(links: &Vec<(u8, (u64, u64))>) -> (table: Vec<LinkStat>)
    ensures
        table@ == links@.map_values(
            |l: (u8, (u64, u64))| LinkStat { slot: l.0 as u32, sent: l.1.0, received: l.1.1 },
        ),
{
    let mut table: Vec<LinkStat> = Vec::new();
    let mut i: usize = 0;
    while i < links.len()
        invariant
            i <= links@.len(),
            table@ == links@.take(i as int).map_values(
                |l: (u8, (u64, u64))| LinkStat { slot: l.0 as u32, sent: l.1.0, received: l.1.1 },
            ),
        decreases links@.len() - i,
    {
        let (sent, received): (u64, u64) = links[i].1;
        table.push(LinkStat { slot: links[i].0 as u32, sent, received });
        i += 1;
        assert(table@ =~= links@.take(i as int).map_values(
            |l: (u8, (u64, u64))| LinkStat { slot: l.0 as u32, sent: l.1.0, received: l.1.1 },
        ));
    }
    assert(links@.take(links@.len() as int) =~= links@);
    table
}

/// The slot can be punched anew: it is one of ours.
pub fn can_redrop(slot: u8) -> (can: bool)
    ensures
        can == (slot < TARGET_LINKS),
{
    slot < TARGET_LINKS
}

/// The packet that an event brings, if it brings one.
pub open spec fn packet_in(event: LinkEvent) -> Option<Incoming> {
    match event {
        LinkEvent::PeerData { slot, payload } => Some(
            Incoming { slot, payload, wrapped: None, order: None },
        ),
        LinkEvent::PeerWrapped { slot, seq, client_id, flow, payload } => if client_id <= u8::MAX {
            Some(
                Incoming {
                    slot,
                    payload,
                    wrapped: Some(WrappedInfo { client_id: client_id as u8, seq }),
                    order: match flow {
                        Some(f) => Some((f, seq)),
                        None => None,
                    },
                },
            )
        } else {
            None
        },
        LinkEvent::PeerOrdered { slot, flow, seq, payload } => Some(
            Incoming { slot, payload, wrapped: None, order: Some((flow, seq)) },
        ),
        _ => None,
    }
}

/// The manager's part of restoring the order.
pub struct ControlModel {
    /// The buffer, unless the restoring of the order is switched off.
    pub reorder: Option<ReorderModel>,
    pub reorder_clients: bool,
}

/// A packet passes to the application, through the buffer or past it.
pub open spec fn passes(
    before: ControlModel,
    packet: Incoming,
    now: u64,
    after: ControlModel,
    out: Seq<Incoming>,
) -> bool {
    &&& after.reorder_clients == before.reorder_clients
    &&& match before.reorder {
        Some(buffer) => if packet.wrapped is Some && !before.reorder_clients {
            out == seq![packet] && after.reorder == before.reorder
        } else {
            after.reorder is Some && buffer.pushes(packet, now, after.reorder->0, out)
        },
        None => out == seq![packet] && after.reorder is None,
    }
}

/// The action that an event that brings no packet calls for.
pub open spec fn calls_for(
    event: LinkEvent,
    received: Seq<(u8, u64)>,
    action: ControlAction,
) -> bool {
    match event {
        LinkEvent::PeerStats(stats) => action matches ControlAction::Replace(slots) && slots@
            == bad_slots(stats@, received),
        LinkEvent::DeleteLink { slot } => action == ControlAction::Redrop(slot),
        LinkEvent::PeerRendezvous(record) => match session_in(record@) {
            Ok(s) => action matches ControlAction::Feed(session) && session@ == s,
            Err(e) => action == ControlAction::BadRecord(e),
        },
        LinkEvent::PeerWrapped { client_id, .. } => action == ControlAction::BadClient(client_id),
        _ => action is Nothing,
    }
}

/// The manager of the holes, as far as their events are concerned.
pub struct Control {
    reorder: Option<Resequencer>,
    reorder_clients: bool,
}

impl View for Control {
    type V = ControlModel;

    closed spec fn view(&self) -> ControlModel {
        ControlModel {
            reorder: match self.reorder {
                Some(r) => Some(r@),
                None => None,
            },
            reorder_clients: self.reorder_clients,
        }
    }
}

impl Control {
    pub closed spec fn wf(&self) -> bool {
        self.reorder matches Some(r) ==> r.wf()
    }

    /// What the invariant says of the buffer.
    pub proof fn lemma_buffer(&self)
        requires
            self.wf(),
        ensures
            self@.reorder matches Some(buffer) ==> buffer.sound(),
    {
        if let Some(reorder) = self.reorder {
            reorder.lemma_model();
        }
    }

    /// The buffer takes the packet in: it is on, and the packet is not one of a client whose
    /// packets pass it by.
    pub open spec fn buffers(&self, packet: Incoming) -> bool {
        self@.reorder is Some && (packet.wrapped is None || self@.reorder_clients)
    }

    /// The buffer can follow the number of the packet: the last number has no successor.
    pub open spec fn can_number(&self, packet: Incoming) -> bool {
        self.buffers(packet) ==> (packet.order matches Some((_, seq)) ==> seq < u64::MAX)
    }

    /// Tells whether the buffer can follow the packet that an event brings, if it brings one.
    pub fn can_follow(&self, event: &LinkEvent) -> (can: bool)
        ensures
            can == (packet_in(*event) matches Some(packet) ==> self.can_number(packet)),
    {
        let last = match event {
            LinkEvent::PeerWrapped { seq, flow: Some(_), client_id, .. } => *seq == u64::MAX
                && *client_id <= 255 && self.reorder_clients,
            LinkEvent::PeerOrdered { seq, .. } => *seq == u64::MAX,
            _ => false,
        };
        !last || self.reorder.is_none()
    }

    /// A time at which packets can be taken in: the longest wait after it can be told.
    pub open spec fn can_take(&self, now: u64) -> bool {
        self@.reorder matches Some(r) ==> now + r.tuner.limit() <= u64::MAX
    }

    pub fn new(options: &MultiLinkOptions) -> (control: Self)
        ensures
            control.wf(),
            control@ == (ControlModel {
                reorder: if options.reorder_wait == 0 {
                    None
                } else {
                    Some(ReorderModel::initial(TunerModel::started(options.reorder_wait)))
                },
                reorder_clients: options.reorder_clients,
            }),
    {
        let reorder = if options.reorder_wait == 0 {
            None
        } else {
            Some(Resequencer::adaptive(options.reorder_wait))
        };
        Control { reorder, reorder_clients: options.reorder_clients }
    }

    /// When [`Self::expire`] has something to hand out: the moment when the packet that has been
    /// held longest has waited long enough.
    pub fn next_deadline(&self) -> (deadline: Option<u64>)
        requires
            self.wf(),
        ensures
            self@.reorder is None ==> deadline is None,
            self@.reorder matches Some(r) ==> r.is_due_first(deadline),
    {
        match &self.reorder {
            Some(reorder) => reorder.next_deadline(),
            None => None,
        }
    }

    /// Hands out the packets that have waited long enough for a missing one.
    pub fn expire(&mut self, now: u64, ready: &mut Vec<Incoming>)
        requires
            old(self).wf(),
        ensures
            final(self).wf(),
            final(self)@.reorder_clients == old(self)@.reorder_clients,
            final(self)@.reorder is Some <==> old(self)@.reorder is Some,
            old(self)@.reorder is None ==> final(ready)@ == old(ready)@,
            old(self)@.reorder matches Some(r) ==> exists|out: Seq<Incoming>|
                #[trigger] r.expires(now, final(self)@.reorder->0, out) && final(ready)@ == old(
                    ready,
                )@ + out,
    {
        let ghost mut handed: Seq<Incoming> = Seq::empty();
        match &mut self.reorder {
            Some(reorder) => {
                reorder.expire_into(now, ready);
                proof {
                    let r = old(self)@.reorder->0;
                    handed = choose|out: Seq<Incoming>|
                        #[trigger] r.expires(now, reorder@, out) && ready@ == old(ready)@ + out;
                }
            },
            None => {},
        }
        assert(old(self)@.reorder matches Some(r) ==> r.expires(
            now,
            self@.reorder->0,
            handed,
        ) && ready@ == old(ready)@ + handed);
    }

    /// The counters of the buffer.
    pub fn stats(&self) -> (stats: Option<ReorderStats>)
        ensures
            stats == match self@.reorder {
                Some(r) => Some(r.stats),
                None => None,
            },
    {
        match &self.reorder {
            Some(reorder) => Some(reorder.stats()),
            None => None,
        }
    }

    /// Hands a packet to the application, through the buffer (if it is on) or at once.
    fn deliver(&mut self, packet: Incoming, now: u64, ready: &mut Vec<Incoming>)
        requires
            old(self).wf(),
            old(self).can_take(now),
            old(self).can_number(packet),
        ensures
            final(self).wf(),
            exists|out: Seq<Incoming>|
                #[trigger] passes(old(self)@, packet, now, final(self)@, out) && final(ready)@
                    == old(ready)@ + out,
    {
        let ghost mut out: Seq<Incoming> = seq![packet];
        let past = packet.wrapped.is_some() && !self.reorder_clients;
        match &mut self.reorder {
            Some(reorder) => {
                if past {
                    ready.push(packet);
                } else {
                    reorder.push_into(packet, now, ready);
                    proof {
                        let before = old(self)@.reorder->0;
                        out = choose|out: Seq<Incoming>|
                            #[trigger] before.pushes(packet, now, reorder@, out) && ready@ == old(
                                ready,
                            )@ + out;
                    }
                }
            },
            None => {
                ready.push(packet);
            },
        }
        assert(passes(old(self)@, packet, now, self@, out));
        assert(ready@ =~= old(ready)@ + out);
    }

    /// Takes an event. `received` are the counters of our live holes.
    pub fn step(
        &mut self,
        event: LinkEvent,
        received: &Vec<(u8, u64)>,
        now: u64,
        ready: &mut Vec<Incoming>,
    ) -> (action: ControlAction)
        requires
            old(self).wf(),
            old(self).can_take(now),
            packet_in(event) matches Some(packet) ==> old(self).can_number(packet),
        ensures
            final(self).wf(),
            packet_in(event) is None ==> {
                &&& final(self)@ == old(self)@
                &&& final(ready)@ == old(ready)@
                &&& calls_for(event, received@, action)
            },
            packet_in(event) matches Some(packet) ==> {
                &&& action is Nothing
                &&& exists|out: Seq<Incoming>|
                    #[trigger] passes(old(self)@, packet, now, final(self)@, out) && final(ready)@
                        == old(ready)@ + out
            },
    {
        match event {
            LinkEvent::PeerStats(stats) => ControlAction::Replace(find_bad(&stats, received)),
            LinkEvent::DeleteLink { slot } => ControlAction::Redrop(slot),
            LinkEvent::PeerData { slot, payload } => {
                self.deliver(
                    Incoming { slot, payload, wrapped: None, order: None },
                    now,
                    ready,
                );
                ControlAction::Nothing
            },
            LinkEvent::PeerWrapped { slot, seq, client_id, flow, payload } => {
                if client_id > 255 {
                    return ControlAction::BadClient(client_id);
                }
                let order = match flow {
                    Some(f) => Some((f, seq)),
                    None => None,
                };
                let wrapped = Some(WrappedInfo { client_id: client_id as u8, seq });
                self.deliver(Incoming { slot, payload, wrapped, order }, now, ready);
                ControlAction::Nothing
            },
            LinkEvent::PeerOrdered { slot, flow, seq, payload } => {
                self.deliver(
                    Incoming { slot, payload, wrapped: None, order: Some((flow, seq)) },
                    now,
                    ready,
                );
                ControlAction::Nothing
            },
            LinkEvent::PeerRendezvous(record) => match peer_session_from(&record) {
                Ok(session) => ControlAction::Feed(session),
                Err(e) => ControlAction::BadRecord(e),
            },
        }
    }
}

/// With the restoring of the order switched off, every packet passes at once, and alone.
pub proof fn law_without_a_buffer_packets_pass_at_once(
    before: ControlModel,
    packet: Incoming,
    now: u64,
    after: ControlModel,
    out: Seq<Incoming>,
)
    requires
        before.reorder is None,
        passes(before, packet, now, after, out),
    ensures
        out == seq![packet],
        after == before,
{
}

/// What is due is what the buffer has, and where there is no buffer nothing is; giving up hands out
/// behind what is ready, and what is ready stays.
pub proof fn law_the_buffer_tells_what_is_due(
    control: &Control,
    deadline: Option<u64>,
    stats: Option<ReorderStats>,
    now: u64,
)
    requires
        control.wf(),
        call_ensures(Control::next_deadline, (control,), deadline),
        call_ensures(Control::stats, (control,), stats),
    ensures
        control@.reorder is None ==> deadline is None && stats is None,
        control@.reorder matches Some(r) ==> stats == Some(r.stats),
        control@.reorder matches Some(r) ==> (deadline is None <==> forall|k: SessionKey| #[trigger]
            r.sessions.contains_key(k) ==> r.sessions[k].oldest is None),
        forall|c: &mut Control, ready: &mut Vec<Incoming>| #[trigger]
            call_ensures(Control::expire, (c, now, ready), ()) && (*c).wf() ==> {
                &&& (*ready)@.is_prefix_of(final(ready)@)
                &&& (*c)@.reorder is None ==> final(ready)@ == (*ready)@
                &&& (*c)@.reorder matches Some(r) ==> {
                    let after = final(c)@.reorder->0;
                    &&& final(c)@.reorder is Some
                    &&& after.stats.timed_out == r.stats.timed_out.wrapping_add(
                        (final(ready)@.len() - (*ready)@.len()) as u64,
                    )
                    &&& forall|k: SessionKey| #[trigger]
                        r.sessions.contains_key(k) ==> after.sessions.contains_key(k)
                }
            },
{
    assert forall|c: &mut Control, ready: &mut Vec<Incoming>| #[trigger]
        call_ensures(Control::expire, (c, now, ready), ()) && (*c).wf() implies {
        &&& (*ready)@.is_prefix_of(final(ready)@)
        &&& (*c)@.reorder is None ==> final(ready)@ == (*ready)@
        &&& (*c)@.reorder matches Some(r) ==> {
            let after = final(c)@.reorder->0;
            &&& final(c)@.reorder is Some
            &&& after.stats.timed_out == r.stats.timed_out.wrapping_add(
                (final(ready)@.len() - (*ready)@.len()) as u64,
            )
            &&& forall|k: SessionKey| #[trigger]
                r.sessions.contains_key(k) ==> after.sessions.contains_key(k)
        }
    } by {
        if let Some(r) = (*c)@.reorder {
            let after = final(c)@.reorder->0;
            assert(after.sessions.dom() == r.sessions.dom());
            assert forall|k: SessionKey| #[trigger] r.sessions.contains_key(k) implies after.sessions.contains_key(
                k,
            ) by {
                assert(r.sessions.dom().contains(k));
            }
        }
        assert((*ready)@ =~= final(ready)@.take((*ready)@.len() as int));
    }
}

} // verus!
