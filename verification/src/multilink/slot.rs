//! The life of one slot: find out the addresses, announce them, wait for the peer, punch, hold
//! the hole while it lasts, and start over.

use super::state::SlotPhase;
use crate::auth::PairSecret;
use crate::guid::Guid;
use crate::net::{endpoint_at, Endpoint, Ip};
use crate::punch::PeerIdentity;
use crate::endpoints::{lemma_without, without};
use crate::rendezvous::{knocked, PeerSession, SessionModel};
use crate::vps::PortRange;
use crate::xor::XorKey;
use vstd::prelude::*;

verus! {

/// How long one attempt to punch lasts, in nanoseconds. It is longer than a registration lives.
pub const PUNCH_WINDOW: u64 = 80_000_000_000;

/// How long to pause after a failure, in nanoseconds.
pub const RETRY_PAUSE: u64 = 2_000_000_000;

/// How a slot gets its addresses and knocks at the peer.
#[derive(Clone, Copy, Debug, PartialEq, Eq, Structural)]
pub enum SlotMode {
    /// The addresses are those that STUN servers see; the ports around the peer's are knocked at.
    Stun,
    /// A server with a public address: every registration takes a new port, and the client is
    /// awaited there.
    VpsServer { public_ip: Ip, bootstrap_port: u16, ports: PortRange },
    /// Its client: every registration takes a new local port, and the server's is knocked at.
    VpsClient,
}

/// How far a slot has come.
#[derive(Clone, Copy)]
pub enum Stage {
    /// A new registration has to be started.
    Idle,
    /// A port is being bound.
    Binding { session: Guid, key: XorKey },
    /// The servers are being asked.
    Observing { session: Guid, key: XorKey },
    /// The slot is being announced under its first address.
    Announcing { session: Guid, endpoint: Endpoint },
    /// The record of the peer is awaited.
    Waiting { session: Guid, endpoint: Endpoint },
    /// The hole is being punched.
    Punching { session: Guid, peer: Guid },
    /// The hole is open.
    Linked { session: Guid, peer: Guid },
    /// No record will come any more.
    Stopped,
}

/// What happens to a slot.
pub enum SlotEvent {
    /// A new registration with a new session and a new vector.
    Start { session: Guid, key: XorKey },
    /// The socket was bound to a port, or could not be bound.
    Bound(Option<u16>),
    /// The servers saw these addresses; nothing, where none answered.
    Observed(Option<Vec<Endpoint>>),
    /// The slot was announced, or could not be.
    Announced(bool),
    /// A record of the peer; nothing, where no more will come.
    Peer(Option<PeerSession>),
    /// The hole is open, or could not be punched in time.
    Punched(bool),
    /// Nothing valid came through the hole for too long.
    Lost,
    /// The hole has to be punched anew.
    Redrop,
}

/// What has to be done for a slot.
pub enum SlotAction {
    /// Tell the phase of the slot.
    Tell(SlotPhase),
    /// Bind a random port of a range, but not the excluded one.
    BindRange { ports: PortRange, exclude: u16 },
    /// Bind any port.
    BindAny,
    /// Ask the STUN servers.
    Observe,
    /// Announce the slot, and keep announcing it until the hole is open.
    Announce { session: Guid, endpoints: Vec<Endpoint>, key: XorKey },
    /// Wait for a record of the peer.
    WaitPeer,
    /// Punch: knock at the candidates (none: wait to be knocked at), for [`PUNCH_WINDOW`] at most.
    Punch { my_port: u16, candidates: Vec<Endpoint>, identity: PeerIdentity },
    /// Stop announcing, forget earlier wishes to punch anew, and list the hole among the live ones.
    List { session: Guid, peer: Guid },
    /// Hold the hole until it is lost or has to be punched anew.
    Hold,
    /// The hole is gone: take it out of the live ones.
    Unlist { session: Guid, peer: Guid },
    /// Start over after [`RETRY_PAUSE`].
    Pause,
    /// Start over at once.
    Restart,
    /// Nothing can be done any more.
    Stop,
}

/// One slot.
pub struct SlotWorker {
    pub slot: u8,
    pub mode: SlotMode,
    pub my_peer_id: Guid,
    pub peer_id: Guid,
    pub pair: PairSecret,
    /// The session of the peer to which the last hole was open.
    pub last_linked: Option<Guid>,
    pub stage: Stage,
}

/// The addresses of a slot that does not ask for them.
pub open spec fn own_address(mode: SlotMode, port: u16) -> Endpoint {
    match mode {
        SlotMode::VpsServer { public_ip, .. } => endpoint_at(public_ip, port),
        _ => endpoint_at(Ip::V4(0), port),
    }
}

/// The addresses to knock at.
pub open spec fn candidates_for(mode: SlotMode, peer: SessionModel) -> Seq<Endpoint> {
    match mode {
        SlotMode::Stun => knocked(peer),
        SlotMode::VpsServer { .. } => Seq::empty(),
        SlotMode::VpsClient => seq![peer.addr],
    }
}

impl SlotWorker {
    /// Who is at both ends of the hole.
    pub open spec fn identity(self, session: Guid, peer: Guid) -> PeerIdentity {
        PeerIdentity {
            session_id: session,
            peer_session_id: peer,
            my_peer_id: self.my_peer_id,
            peer_id: self.peer_id,
            slot: self.slot,
            pair: self.pair,
        }
    }

    /// The stage after an event.
    pub open spec fn next_stage(self, event: SlotEvent) -> Stage {
        match (self.stage, event) {
            (Stage::Idle, SlotEvent::Start { session, key }) => if self.mode is Stun {
                Stage::Observing { session, key }
            } else {
                Stage::Binding { session, key }
            },
            (Stage::Binding { session, key }, SlotEvent::Bound(Some(port))) => Stage::Announcing {
                session,
                endpoint: own_address(self.mode, port),
            },
            (Stage::Binding { .. }, SlotEvent::Bound(None)) => Stage::Idle,
            (Stage::Observing { session, key }, SlotEvent::Observed(Some(endpoints))) => if endpoints@.len()
                > 0 {
                Stage::Announcing { session, endpoint: endpoints@[0] }
            } else {
                Stage::Idle
            },
            (Stage::Observing { .. }, SlotEvent::Observed(None)) => Stage::Idle,
            (Stage::Announcing { session, endpoint }, SlotEvent::Announced(ok)) => if ok {
                Stage::Waiting { session, endpoint }
            } else {
                Stage::Idle
            },
            (Stage::Waiting { session, endpoint }, SlotEvent::Peer(Some(peer))) => if self.last_linked
                == Some(peer.session_id) {
                self.stage
            } else {
                Stage::Punching { session, peer: peer.session_id }
            },
            (Stage::Waiting { .. }, SlotEvent::Peer(None)) => Stage::Stopped,
            (Stage::Punching { session, peer }, SlotEvent::Punched(ok)) => if ok {
                Stage::Linked { session, peer }
            } else {
                Stage::Idle
            },
            (Stage::Linked { .. }, SlotEvent::Lost) => Stage::Idle,
            (Stage::Linked { .. }, SlotEvent::Redrop) => Stage::Idle,
            _ => self.stage,
        }
    }

    /// The session of the peer to which the last hole was open, after an event.
    pub open spec fn next_linked(self, event: SlotEvent) -> Option<Guid> {
        match (self.stage, event) {
            (Stage::Punching { session, peer }, SlotEvent::Punched(true)) => Some(peer),
            _ => self.last_linked,
        }
    }

    /// The slot after an event.
    pub open spec fn stepped(self, event: SlotEvent) -> Self {
        SlotWorker {
            stage: self.next_stage(event),
            last_linked: self.next_linked(event),
            ..self
        }
    }

    /// The slot after a row of events.
    pub open spec fn after(self, events: Seq<SlotEvent>) -> Self
        decreases events.len(),
    {
        if events.len() == 0 {
            self
        } else {
            self.after(events.drop_last()).stepped(events.last())
        }
    }

    /// What an event calls for, one after the other. The last of it brings the next event. An
    /// event that does not concern the slot at its stage calls for nothing.
    pub open spec fn asks(self, event: SlotEvent, actions: Seq<SlotAction>) -> bool {
        match (self.stage, event) {
            (Stage::Idle, SlotEvent::Start { session, key }) => {
                &&& actions.len() == 2
                &&& actions[0] == SlotAction::Tell(SlotPhase::Starting)
                &&& match self.mode {
                    SlotMode::Stun => actions[1] is Observe,
                    SlotMode::VpsServer { public_ip, bootstrap_port, ports } => actions[1] == (
                    SlotAction::BindRange { ports, exclude: bootstrap_port }),
                    SlotMode::VpsClient => actions[1] is BindAny,
                }
            },
            (Stage::Binding { session, key }, SlotEvent::Bound(Some(port))) => {
                &&& actions.len() == 1
                &&& actions[0] matches SlotAction::Announce { session: s, endpoints: e, key: k }
                &&& s == session
                &&& e@ == seq![own_address(self.mode, port)]
                &&& k == key
            },
            (Stage::Binding { .. }, SlotEvent::Bound(None)) => actions == seq![SlotAction::Pause],
            (Stage::Observing { session, key }, SlotEvent::Observed(Some(endpoints))) => actions
                == if endpoints@.len() > 0 {
                seq![SlotAction::Announce { session, endpoints, key }]
            } else {
                seq![SlotAction::Pause]
            },
            (Stage::Observing { .. }, SlotEvent::Observed(None)) => actions == seq![
                SlotAction::Pause,
            ],
            (Stage::Announcing { .. }, SlotEvent::Announced(ok)) => actions == if ok {
                seq![SlotAction::Tell(SlotPhase::Rendezvous), SlotAction::WaitPeer]
            } else {
                seq![SlotAction::Pause]
            },
            (Stage::Waiting { session, endpoint }, SlotEvent::Peer(Some(peer))) => if self.last_linked
                == Some(peer.session_id) {
                actions == seq![SlotAction::WaitPeer]
            } else {
                &&& actions.len() == 2
                &&& actions[0] == SlotAction::Tell(SlotPhase::Punching)
                &&& actions[1] matches SlotAction::Punch { my_port: p, candidates: c, identity: i }
                &&& p == endpoint.port
                &&& c@ == candidates_for(self.mode, peer@)
                &&& i == self.identity(session, peer.session_id)
            },
            (Stage::Waiting { .. }, SlotEvent::Peer(None)) => actions == seq![SlotAction::Stop],
            (Stage::Punching { session, peer }, SlotEvent::Punched(ok)) => actions == if ok {
                seq![
                    SlotAction::List { session, peer },
                    SlotAction::Tell(SlotPhase::Connected),
                    SlotAction::Hold,
                ]
            } else {
                seq![SlotAction::Restart]
            },
            (Stage::Linked { session, peer }, SlotEvent::Lost) => actions == seq![
                SlotAction::Unlist { session, peer },
                SlotAction::Restart,
            ],
            (Stage::Linked { session, peer }, SlotEvent::Redrop) => actions == seq![
                SlotAction::Unlist { session, peer },
                SlotAction::Restart,
            ],
            _ => actions == Seq::<SlotAction>::empty(),
        }
    }

    /// A slot before its first registration.
    pub fn new(slot: u8, mode: SlotMode, my_peer_id: Guid, peer_id: Guid, pair: PairSecret) -> (worker: Self)
        ensures
            worker == (SlotWorker {
                slot,
                mode,
                my_peer_id,
                peer_id,
                pair,
                last_linked: None,
                stage: Stage::Idle,
            }),
    {
        SlotWorker { slot, mode, my_peer_id, peer_id, pair, last_linked: None, stage: Stage::Idle }
    }

    fn was_linked(&self, peer: Guid) -> (is: bool)
        ensures
            is == (self.last_linked == Some(peer)),
    {
        match self.last_linked {
            Some(last) => last == peer,
            None => false,
        }
    }

    fn candidates(&self, peer: &PeerSession) -> (candidates: Vec<Endpoint>)
        ensures
            candidates@ == candidates_for(self.mode, peer@),
    {
        match self.mode {
            SlotMode::Stun => peer.candidates(),
            SlotMode::VpsServer { .. } => Vec::new(),
            SlotMode::VpsClient => {
                let mut one: Vec<Endpoint> = Vec::new();
                one.push(peer.addr);
                assert(one@ =~= seq![peer.addr]);
                one
            },
        }
    }

    /// Takes an event and tells what has to be done, in this order.
    pub fn step(&mut self, event: SlotEvent) -> (actions: Vec<SlotAction>)
        ensures
            *final(self) == old(self).stepped(event),
            old(self).asks(event, actions@),
    {
        let stage = self.stage;
        match event {
            SlotEvent::Start { session, key } => {
                if let Stage::Idle = stage {
                    match self.mode {
                        SlotMode::Stun => {
                            self.stage = Stage::Observing { session, key };
                            vec![SlotAction::Tell(SlotPhase::Starting), SlotAction::Observe]
                        },
                        SlotMode::VpsServer { public_ip: _, bootstrap_port, ports } => {
                            self.stage = Stage::Binding { session, key };
                            vec![
                                SlotAction::Tell(SlotPhase::Starting),
                                SlotAction::BindRange { ports, exclude: bootstrap_port },
                            ]
                        },
                        SlotMode::VpsClient => {
                            self.stage = Stage::Binding { session, key };
                            vec![SlotAction::Tell(SlotPhase::Starting), SlotAction::BindAny]
                        },
                    }
                } else {
                    Vec::new()
                }
            },
            SlotEvent::Bound(bound) => {
                if let Stage::Binding { session, key } = stage {
                    match bound {
                        Some(port) => {
                            let endpoint = match self.mode {
                                SlotMode::VpsServer { public_ip, .. } => Endpoint::new(public_ip, port),
                                _ => Endpoint::new(Ip::V4(0), port),
                            };
                            let mut endpoints: Vec<Endpoint> = Vec::new();
                            endpoints.push(endpoint);
                            assert(endpoints@ =~= seq![endpoint]);
                            self.stage = Stage::Announcing { session, endpoint };
                            vec![SlotAction::Announce { session, endpoints, key }]
                        },
                        None => self.retry(),
                    }
                } else {
                    Vec::new()
                }
            },
            SlotEvent::Observed(observed) => {
                if let Stage::Observing { session, key } = stage {
                    match observed {
                        Some(endpoints) => {
                            if endpoints.len() == 0 {
                                return self.retry();
                            }
                            self.stage = Stage::Announcing { session, endpoint: endpoints[0] };
                            let ghost wanted = seq![
                                SlotAction::Announce { session, endpoints, key },
                            ];
                            let actions = vec![SlotAction::Announce { session, endpoints, key }];
                            assert(actions@ =~= wanted);
                            actions
                        },
                        None => self.retry(),
                    }
                } else {
                    Vec::new()
                }
            },
            SlotEvent::Announced(ok) => {
                if let Stage::Announcing { session, endpoint } = stage {
                    if ok {
                        self.stage = Stage::Waiting { session, endpoint };
                        let actions = vec![
                            SlotAction::Tell(SlotPhase::Rendezvous),
                            SlotAction::WaitPeer,
                        ];
                        assert(actions@ =~= seq![
                            SlotAction::Tell(SlotPhase::Rendezvous),
                            SlotAction::WaitPeer,
                        ]);
                        actions
                    } else {
                        self.retry()
                    }
                } else {
                    Vec::new()
                }
            },
            SlotEvent::Peer(record) => {
                if let Stage::Waiting { session, endpoint } = stage {
                    match record {
                        Some(peer) => {
                            if self.was_linked(peer.session_id) {
                                let actions = vec![SlotAction::WaitPeer];
                                assert(actions@ =~= seq![SlotAction::WaitPeer]);
                                return actions;
                            }
                            let candidates = self.candidates(&peer);
                            let identity = PeerIdentity {
                                session_id: session,
                                peer_session_id: peer.session_id,
                                my_peer_id: self.my_peer_id,
                                peer_id: self.peer_id,
                                slot: self.slot,
                                pair: self.pair,
                            };
                            self.stage = Stage::Punching { session, peer: peer.session_id };
                            vec![
                                SlotAction::Tell(SlotPhase::Punching),
                                SlotAction::Punch { my_port: endpoint.port, candidates, identity },
                            ]
                        },
                        None => {
                            self.stage = Stage::Stopped;
                            let actions = vec![SlotAction::Stop];
                            assert(actions@ =~= seq![SlotAction::Stop]);
                            actions
                        },
                    }
                } else {
                    Vec::new()
                }
            },
            SlotEvent::Punched(ok) => {
                if let Stage::Punching { session, peer } = stage {
                    if ok {
                        self.last_linked = Some(peer);
                        self.stage = Stage::Linked { session, peer };
                        let actions = vec![
                            SlotAction::List { session, peer },
                            SlotAction::Tell(SlotPhase::Connected),
                            SlotAction::Hold,
                        ];
                        assert(actions@ =~= seq![
                            SlotAction::List { session, peer },
                            SlotAction::Tell(SlotPhase::Connected),
                            SlotAction::Hold,
                        ]);
                        actions
                    } else {
                        self.stage = Stage::Idle;
                        let actions = vec![SlotAction::Restart];
                        assert(actions@ =~= seq![SlotAction::Restart]);
                        actions
                    }
                } else {
                    Vec::new()
                }
            },
            SlotEvent::Lost => self.release(),
            SlotEvent::Redrop => self.release(),
        }
    }

    /// Gives a registration up, and starts over later.
    fn retry(&mut self) -> (actions: Vec<SlotAction>)
        ensures
            *final(self) == (SlotWorker { stage: Stage::Idle, ..*old(self) }),
            actions@ == seq![SlotAction::Pause],
    {
        self.stage = Stage::Idle;
        let actions = vec![SlotAction::Pause];
        assert(actions@ =~= seq![SlotAction::Pause]);
        actions
    }

    /// Lets an open hole go.
    fn release(&mut self) -> (actions: Vec<SlotAction>)
        ensures
            *final(self) == (SlotWorker {
                stage: if old(self).stage is Linked {
                    Stage::Idle
                } else {
                    old(self).stage
                },
                ..*old(self)
            }),
            actions@ == match old(self).stage {
                Stage::Linked { session, peer } => seq![
                    SlotAction::Unlist { session, peer },
                    SlotAction::Restart,
                ],
                _ => Seq::<SlotAction>::empty(),
            },
    {
        if let Stage::Linked { session, peer } = self.stage {
            self.stage = Stage::Idle;
            let actions = vec![SlotAction::Unlist { session, peer }, SlotAction::Restart];
            assert(actions@ =~= seq![SlotAction::Unlist { session, peer }, SlotAction::Restart]);
            actions
        } else {
            Vec::new()
        }
    }
}

/// A slot is never punched again to the session of the peer to which its last hole was open.
pub proof fn law_a_linked_session_is_not_used_again(
    worker: SlotWorker,
    peer: PeerSession,
    actions: Seq<SlotAction>,
)
    requires
        worker.last_linked == Some(peer.session_id),
        worker.asks(SlotEvent::Peer(Some(peer)), actions),
    ensures
        forall|i: int| 0 <= i < actions.len() ==> !(#[trigger] actions[i] is Punch),
        worker.next_stage(SlotEvent::Peer(Some(peer))) == worker.stage,
{
}

/// A server with a public address knocks nowhere: it waits to be knocked at.
pub proof fn law_a_server_never_knocks(
    worker: SlotWorker,
    event: SlotEvent,
    actions: Seq<SlotAction>,
    i: int,
)
    requires
        worker.mode is VpsServer,
        worker.asks(event, actions),
        0 <= i < actions.len(),
    ensures
        actions[i] matches SlotAction::Punch { candidates, .. } ==> candidates@.len() == 0,
{
}

/// Where a slot knocks, and who it says it is: behind NATs at every address of the peer, as the
/// client of a server with a public address at the server's alone, and as such a server nowhere. Its
/// own port is that of its first address, and the hole is between the session that it announced and
/// the one of the peer.
pub proof fn law_a_slot_punches_to_the_session_of_the_peer(
    session: Guid,
    endpoint: Endpoint,
    peer: PeerSession,
    e: Endpoint,
)
    ensures
        forall|w: &mut SlotWorker, actions: Vec<SlotAction>| #[trigger]
            call_ensures(SlotWorker::step, (w, SlotEvent::Peer(Some(peer))), actions) && (*w).stage
                == (Stage::Waiting { session, endpoint }) && (*w).last_linked != Some(
                peer.session_id,
            ) ==> {
                &&& actions@.len() == 2
                &&& actions@[1] matches SlotAction::Punch { my_port, candidates, identity }
                &&& my_port == endpoint.port
                &&& (*w).mode is Stun ==> candidates@.len() > 0 && candidates@[0] == peer.addr && (
                candidates@.contains(e) <==> e == peer.addr || peer.extra@.contains(e))
                &&& (*w).mode is VpsClient ==> candidates@ == seq![peer.addr]
                &&& (*w).mode is VpsServer ==> candidates@.len() == 0
                &&& identity.session_id == session && identity.peer_session_id == peer.session_id
                &&& identity.my_peer_id == (*w).my_peer_id && identity.peer_id == (*w).peer_id
                &&& identity.slot == (*w).slot && identity.pair == (*w).pair
            },
{
    assert forall|w: &mut SlotWorker, actions: Vec<SlotAction>| #[trigger]
        call_ensures(SlotWorker::step, (w, SlotEvent::Peer(Some(peer))), actions) && (*w).stage == (
        Stage::Waiting { session, endpoint }) && (*w).last_linked != Some(peer.session_id) implies {
        &&& actions@.len() == 2
        &&& actions@[1] matches SlotAction::Punch { my_port, candidates, identity }
        &&& my_port == endpoint.port
        &&& (*w).mode is Stun ==> candidates@.len() > 0 && candidates@[0] == peer.addr && (
        candidates@.contains(e) <==> e == peer.addr || peer.extra@.contains(e))
        &&& (*w).mode is VpsClient ==> candidates@ == seq![peer.addr]
        &&& (*w).mode is VpsServer ==> candidates@.len() == 0
        &&& identity.session_id == session && identity.peer_session_id == peer.session_id
        &&& identity.my_peer_id == (*w).my_peer_id && identity.peer_id == (*w).peer_id
        &&& identity.slot == (*w).slot && identity.pair == (*w).pair
    } by {
        let all = knocked(peer@);
        let tail = without(peer.extra@, peer.addr);
        lemma_without(peer.extra@, peer.addr);
        if tail.contains(e) {
            let k = choose|k: int| 0 <= k < tail.len() && tail[k] == e;
            assert(all[k + 1] == e);
        }
        if all.contains(e) && e != peer.addr {
            let k = choose|k: int| 0 <= k < all.len() && all[k] == e;
            assert(tail[k - 1] == e);
        }
        assert(all[0] == peer.addr);
    }
}

/// What a slot announces is what it found out: behind NATs the addresses that servers saw, at a
/// server its public address with the port that it took, under the session and with the vector of
/// its start.
pub proof fn law_a_slot_announces_what_it_found_out(session: Guid, key: XorKey)
    ensures
        forall|w: &mut SlotWorker, found: Vec<Endpoint>, actions: Vec<SlotAction>| #[trigger]
            call_ensures(SlotWorker::step, (w, SlotEvent::Observed(Some(found))), actions) && (
            *w).stage == (Stage::Observing { session, key }) && found@.len() > 0 ==> {
                &&& actions@.len() == 1
                &&& actions@[0] matches SlotAction::Announce { session: s, endpoints, key: k }
                &&& s == session && k == key && endpoints@ == found@
            },
        forall|w: &mut SlotWorker, port: u16, actions: Vec<SlotAction>| #[trigger]
            call_ensures(SlotWorker::step, (w, SlotEvent::Bound(Some(port))), actions) && (*w).stage
                == (Stage::Binding { session, key }) ==> {
                &&& actions@.len() == 1
                &&& actions@[0] matches SlotAction::Announce { session: s, endpoints, key: k }
                &&& s == session && k == key && endpoints@.len() == 1 && endpoints@[0].port == port
                &&& (*w).mode matches SlotMode::VpsServer { public_ip, .. } ==> endpoints@[0].ip
                    == public_ip
            },
        forall|w: &mut SlotWorker, actions: Vec<SlotAction>| #[trigger]
            call_ensures(SlotWorker::step, (w, SlotEvent::Start { session, key }), actions) && (
            *w).stage is Idle ==> {
                &&& actions@.len() == 2
                &&& (*w).mode is Stun ==> actions@[1] is Observe
                &&& (*w).mode is VpsClient ==> actions@[1] is BindAny
                &&& (*w).mode matches SlotMode::VpsServer { bootstrap_port, ports, .. }
                    ==> actions@[1] == (SlotAction::BindRange { ports, exclude: bootstrap_port })
            },
{
}

/// What fails is tried again after a pause, a hole that was not punched in time at once; nothing
/// is left of the attempt but the memory of the last hole.
pub proof fn law_a_failed_attempt_starts_over(event: SlotEvent)
    ensures
        forall|w: &mut SlotWorker, actions: Vec<SlotAction>| #[trigger]
            call_ensures(SlotWorker::step, (w, event), actions) ==> {
                let failed = match (*w).stage {
                    Stage::Binding { .. } => event matches SlotEvent::Bound(None),
                    Stage::Observing { .. } => event matches SlotEvent::Observed(seen) && (
                    seen is None || seen->0@.len() == 0),
                    Stage::Announcing { .. } => event matches SlotEvent::Announced(ok) && !ok,
                    _ => false,
                };
                let late = (*w).stage is Punching && (event matches SlotEvent::Punched(ok) && !ok);
                &&& failed ==> actions@ == seq![SlotAction::Pause] && final(w).stage is Idle
                &&& late ==> actions@ == seq![SlotAction::Restart] && final(w).stage is Idle
                &&& failed || late ==> final(w).last_linked == (*w).last_linked
            },
{
}

/// A hole is punched for 80 seconds at most, and after a failure the slot waits for two.
pub proof fn law_attempts_have_their_times()
    ensures
        PUNCH_WINDOW == 80 * 1_000_000_000,
        RETRY_PAUSE == 2 * 1_000_000_000,
{
}

} // verus!
