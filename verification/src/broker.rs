//! The connection to the rendezvous broker: who we are to it, and what to do about what it says.

use crate::guid::{guid_text, Guid};
use crate::rendezvous::{PeerSession, RecordError};
use crate::text::{chars, code};
use vstd::prelude::*;

verus! {

/// Who we are to the broker. It lets a client write only under its own GUID and read only under
/// the GUID that it gives as its user name.
pub struct BrokerLogin {
    pub client_id: String,
    pub username: String,
}

/// The mark stands in the data at a position.
pub open spec fn marked_at(data: Seq<u8>, mark: Seq<char>, at: int) -> bool {
    &&& 0 <= at
    &&& at + mark.len() <= data.len()
    &&& forall|k: int| 0 <= k < mark.len() ==> #[trigger] data[at + k] as int == mark[k] as int
}

/// The mark stands somewhere in the data.
pub open spec fn marked(data: Seq<u8>, mark: Seq<char>) -> bool {
    exists|at: int| marked_at(data, mark, at)
}

fn is_marked_at(data: &[u8], mark: &Vec<char>, at: usize) -> (is: bool)
    requires
        at + mark@.len() <= data@.len(),
    ensures
        is == marked_at(data@, mark@, at as int),
{
    let size: usize = data.len();
    let mut k: usize = 0;
    while k < mark.len()
        invariant
            k <= mark@.len(),
            at + mark@.len() <= data@.len(),
            size == data@.len(),
            forall|j: int| 0 <= j < k ==> #[trigger] data@[at + j] as int == mark@[j] as int,
        decreases mark@.len() - k,
    {
        if data[at + k] as u32 != code(mark[k]) {
            assert(data@[at + k] as int != mark@[k as int] as int);
            return false;
        }
        k += 1;
    }
    true
}

/// The data holds the mark.
pub fn holds_mark(data: &[u8], mark: &str) -> (is: bool)
    ensures
        is == marked(data@, mark@),
{
    let letters: Vec<char> = chars(mark);
    let size: usize = data.len();
    if size < letters.len() {
        return false;
    }
    let last: usize = size - letters.len();
    let mut at: usize = 0;
    while at < last
        invariant
            at <= last,
            letters@ == mark@,
            last + letters@.len() == data@.len(),
            forall|i: int| 0 <= i < at ==> !marked_at(data@, mark@, i),
        decreases last - at,
    {
        if is_marked_at(data, &letters, at) {
            return true;
        }
        at += 1;
    }
    is_marked_at(data, &letters, last)
}

/// The login at the broker, unless its CA certificate does not look like PEM.
pub fn mqtt_login(ca_pem: &[u8], my_peer_id: Guid, peer_id: Guid) -> (login: Option<BrokerLogin>)
    ensures
        login is Some <==> marked(ca_pem@, "-----BEGIN CERTIFICATE-----"@),
        login matches Some(l) ==> l.client_id@ == guid_text(my_peer_id.value) && l.username@
            == guid_text(peer_id.value),
{
    if !holds_mark(ca_pem, "-----BEGIN CERTIFICATE-----") {
        return None;
    }
    Some(BrokerLogin { client_id: my_peer_id.text(), username: peer_id.text() })
}

/// What the broker says.
pub enum BrokerEvent {
    /// The connection is lost.
    Lost,
    /// The connection stands.
    Connected,
    /// A record came: a session of the peer, a record of somebody else, or a broken one.
    Record(Result<Option<PeerSession>, RecordError>),
    /// Anything else.
    Other,
}

/// What to do about it.
pub enum BrokerAction {
    /// Wait and connect again; `report` is set where the loss has not been reported yet.
    Reconnect { report: bool },
    /// A connection after an earlier one: subscribe again, since the session is a new one.
    Subscribe,
    /// Hand the session over.
    Deliver(PeerSession),
    /// Report a broken record.
    Report(RecordError),
    /// Nothing.
    Nothing,
}

/// What is remembered of the connection.
pub struct PollModel {
    pub ever_connected: bool,
    pub failing: bool,
    /// The slots and sessions that were handed over.
    pub seen: Set<(u8, Guid)>,
}

/// The state of the connection to the broker.
pub struct BrokerPoll {
    ever_connected: bool,
    failing: bool,
    seen: Vec<(u8, Guid)>,
}

impl View for BrokerPoll {
    type V = PollModel;

    closed spec fn view(&self) -> PollModel {
        PollModel {
            ever_connected: self.ever_connected,
            failing: self.failing,
            seen: self.seen@.to_set(),
        }
    }
}

/// The state after an event.
pub open spec fn polled(before: PollModel, event: BrokerEvent) -> PollModel {
    match event {
        BrokerEvent::Lost => PollModel { failing: true, ..before },
        BrokerEvent::Connected => PollModel { failing: false, ever_connected: true, ..before },
        BrokerEvent::Record(Ok(Some(s))) => PollModel {
            seen: before.seen.insert((s.slot, s.session_id)),
            ..before
        },
        _ => before,
    }
}

/// The answer to an event: one session of the peer is handed over once.
pub open spec fn answers(before: PollModel, event: BrokerEvent, action: BrokerAction) -> bool {
    match event {
        BrokerEvent::Lost => action == (BrokerAction::Reconnect { report: !before.failing }),
        BrokerEvent::Connected => if before.ever_connected {
            action is Subscribe
        } else {
            action is Nothing
        },
        BrokerEvent::Record(Ok(Some(s))) => if before.seen.contains((s.slot, s.session_id)) {
            action is Nothing
        } else {
            action == BrokerAction::Deliver(s)
        },
        BrokerEvent::Record(Ok(None)) => action is Nothing,
        BrokerEvent::Record(Err(e)) => action == BrokerAction::Report(e),
        BrokerEvent::Other => action is Nothing,
    }
}

impl BrokerPoll {
    pub fn new() -> (poll: Self)
        ensures
            poll@ == (PollModel { ever_connected: false, failing: false, seen: Set::empty() }),
    {
        let poll = Self { ever_connected: false, failing: false, seen: Vec::new() };
        assert(poll@.seen =~= Set::empty());
        poll
    }

    fn has_seen(&self, slot: u8, session: Guid) -> (is: bool)
        ensures
            is == self@.seen.contains((slot, session)),
    {
        let mut i: usize = 0;
        while i < self.seen.len()
            invariant
                i <= self.seen@.len(),
                forall|k: int| 0 <= k < i ==> self.seen@[k] != (slot, session),
            decreases self.seen@.len() - i,
        {
            if self.seen[i].0 == slot && self.seen[i].1 == session {
                assert(self.seen@[i as int] == (slot, session));
                return true;
            }
            i += 1;
        }
        false
    }

    /// Takes what the broker says and tells what to do.
    pub fn step(&mut self, event: BrokerEvent) -> (action: BrokerAction)
        ensures
            final(self)@ == polled(old(self)@, event),
            answers(old(self)@, event, action),
    {
        match event {
            BrokerEvent::Lost => {
                let report = !self.failing;
                self.failing = true;
                BrokerAction::Reconnect { report }
            },
            BrokerEvent::Connected => {
                self.failing = false;
                let again = self.ever_connected;
                self.ever_connected = true;
                if again {
                    BrokerAction::Subscribe
                } else {
                    BrokerAction::Nothing
                }
            },
            BrokerEvent::Record(record) => match record {
                Ok(Some(session)) => {
                    let (slot, id) = (session.slot, session.session_id);
                    if self.has_seen(slot, id) {
                        assert(self@.seen.insert((slot, id)) =~= self@.seen);
                        return BrokerAction::Nothing;
                    }
                    let ghost before = self.seen@;
                    self.seen.push((slot, id));
                    proof {
                        lemma_pushed_set(before, (slot, id));
                    }
                    BrokerAction::Deliver(session)
                },
                Ok(None) => BrokerAction::Nothing,
                Err(e) => BrokerAction::Report(e),
            },
            BrokerEvent::Other => BrokerAction::Nothing,
        }
    }
}

proof fn lemma_pushed_set(s: Seq<(u8, Guid)>, x: (u8, Guid))
    ensures
        s.push(x).to_set() == s.to_set().insert(x),
{
    let after = s.push(x);
    assert forall|y: (u8, Guid)| #[trigger] after.to_set().contains(y) <==> s.to_set().insert(
        x,
    ).contains(y) by {
        if s.contains(y) {
            let k = choose|k: int| 0 <= k < s.len() && s[k] == y;
            assert(after[k] == y);
        }
        if y == x {
            assert(after[s.len() as int] == y);
        }
        if after.contains(y) {
            let k = choose|k: int| 0 <= k < after.len() && after[k] == y;
            if k < s.len() {
                assert(s[k] == y);
            }
        }
    }
    assert(after.to_set() =~= s.to_set().insert(x));
}

/// A session that was handed over is never handed over again, whatever came in between.
pub proof fn law_session_is_delivered_once(
    first: PollModel,
    between: Seq<BrokerEvent>,
    session: PeerSession,
    again: PeerSession,
    action: BrokerAction,
)
    requires
        again.slot == session.slot,
        again.session_id == session.session_id,
        answers(
            polled_all(polled(first, BrokerEvent::Record(Ok(Some(session)))), between),
            BrokerEvent::Record(Ok(Some(again))),
            action,
        ),
    ensures
        action is Nothing,
{
    lemma_seen_stays(
        polled(first, BrokerEvent::Record(Ok(Some(session)))),
        between,
        (session.slot, session.session_id),
    );
}

/// The state after several events.
pub open spec fn polled_all(before: PollModel, events: Seq<BrokerEvent>) -> PollModel
    decreases events.len(),
{
    if events.len() == 0 {
        before
    } else {
        polled(polled_all(before, events.drop_last()), events.last())
    }
}

proof fn lemma_seen_stays(before: PollModel, events: Seq<BrokerEvent>, x: (u8, Guid))
    requires
        before.seen.contains(x),
    ensures
        polled_all(before, events).seen.contains(x),
    decreases events.len(),
{
    if events.len() > 0 {
        lemma_seen_stays(before, events.drop_last(), x);
    }
}

/// What the broker says is acted on: a session of the peer is handed over once, a broken record is
/// reported, and what is of somebody else is passed over. A loss is reported once, until the
/// connection stands again; a connection after an earlier one is subscribed anew.
pub proof fn law_the_broker_is_listened_to(event: BrokerEvent)
    ensures
        forall|p: &mut BrokerPoll, action: BrokerAction| #[trigger]
            call_ensures(BrokerPoll::step, (p, event), action) ==> {
                let (before, after) = ((*p)@, final(p)@);
                &&& event is Lost ==> (action matches BrokerAction::Reconnect { report } && report
                    == !before.failing) && after.failing && after.ever_connected
                    == before.ever_connected && after.seen == before.seen
                &&& event is Connected ==> (action is Subscribe <==> before.ever_connected) && (
                action is Nothing <==> !before.ever_connected) && !after.failing
                    && after.ever_connected && after.seen == before.seen
                &&& event matches BrokerEvent::Record(Ok(Some(s))) ==> {
                    let known = before.seen.contains((s.slot, s.session_id));
                    &&& known ==> action is Nothing
                    &&& !known ==> action == BrokerAction::Deliver(s)
                    &&& after.seen == before.seen.insert((s.slot, s.session_id))
                    &&& after.failing == before.failing && after.ever_connected
                        == before.ever_connected
                }
                &&& event matches BrokerEvent::Record(Err(e)) ==> action == BrokerAction::Report(e)
                    && after == before
                &&& event matches BrokerEvent::Record(Ok(None)) ==> action is Nothing && after
                    == before
                &&& event is Other ==> action is Nothing && after == before
            },
        forall|p: BrokerPoll| #[trigger]
            call_ensures(BrokerPoll::new, (), p) ==> !p@.failing && !p@.ever_connected && p@.seen
                == Set::<(u8, Guid)>::empty(),
{
}

/// To the broker we are our own GUID, and name the peer's; without a certificate there is no login.
pub proof fn law_the_broker_knows_us_by_our_guid(
    ca_pem: &[u8],
    my_peer_id: Guid,
    peer_id: Guid,
    login: Option<BrokerLogin>,
    at: int,
)
    requires
        call_ensures(mqtt_login, (ca_pem, my_peer_id, peer_id), login),
    ensures
        marked_at(ca_pem@, "-----BEGIN CERTIFICATE-----"@, at) ==> login is Some,
        ca_pem@.len() < 27 ==> login is None,
        login matches Some(l) ==> l.client_id@ == guid_text(my_peer_id.value) && l.username@
            == guid_text(peer_id.value),
{
    reveal_strlit("-----BEGIN CERTIFICATE-----");
}

} // verus!
