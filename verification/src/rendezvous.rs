//! Rendezvous: how two peers learn each other's addresses.
//!
//! Every hole is a slot with its own socket, its own addresses and its own session. A slot is
//! published under the topic `home-proxy/rendezvous/{peer}/{slot}`, and all slots of the peer are
//! read with a wildcard. The same record also travels over a live hole.

use crate::endpoints::{add_without, lemma_without, without};
use crate::guid::{guid_of_text, guid_text, Guid};
use crate::net::{endpoint_at, Endpoint, Ip};
use crate::text::{decimal, push_decimal, same_text};
use crate::xor::XorKey;
use vstd::prelude::*;

verus! {

/// How long a registration lives at the broker, in seconds.
pub const REGISTRATION_TTL: u32 = 60;

/// A further address of a slot. `ip` is what its text denotes, if it denotes an address.
#[derive(Clone, Copy, Debug, PartialEq, Eq)]
pub struct RecordAddress {
    pub ip: Option<Ip>,
    pub port: u32,
}

/// The record of one slot. `public_ip` is what its text denotes, if it denotes an address.
#[derive(Debug)]
pub struct Rendezvous {
    pub public_ip: Option<Ip>,
    pub public_port: u32,
    pub peer_id: String,
    pub registered_at_unix_ms: u64,
    pub session_id: String,
    pub slot: u32,
    pub key: Vec<u8>,
    pub extra_endpoints: Vec<RecordAddress>,
}

/// What a record says.
pub struct RecordModel {
    pub public_ip: Option<Ip>,
    pub public_port: u32,
    pub peer_id: Seq<char>,
    pub registered_at_unix_ms: u64,
    pub session_id: Seq<char>,
    pub slot: u32,
    pub key: Seq<u8>,
    pub extra_endpoints: Seq<RecordAddress>,
}

impl View for Rendezvous {
    type V = RecordModel;

    open spec fn view(&self) -> RecordModel {
        RecordModel {
            public_ip: self.public_ip,
            public_port: self.public_port,
            peer_id: self.peer_id@,
            registered_at_unix_ms: self.registered_at_unix_ms,
            session_id: self.session_id@,
            slot: self.slot,
            key: self.key@,
            extra_endpoints: self.extra_endpoints@,
        }
    }
}

impl Rendezvous {
    /// A copy of the record.
    pub fn copy(&self) -> (copy: Rendezvous)
        ensures
            copy@ == self@,
    {
        let mut key: Vec<u8> = Vec::new();
        let mut i: usize = 0;
        while i < self.key.len()
            invariant
                i <= self.key@.len(),
                key@ == self.key@.take(i as int),
            decreases self.key@.len() - i,
        {
            key.push(self.key[i]);
            i += 1;
            assert(key@ =~= self.key@.take(i as int));
        }
        let mut extra: Vec<RecordAddress> = Vec::new();
        let mut j: usize = 0;
        while j < self.extra_endpoints.len()
            invariant
                j <= self.extra_endpoints@.len(),
                extra@ == self.extra_endpoints@.take(j as int),
            decreases self.extra_endpoints@.len() - j,
        {
            extra.push(self.extra_endpoints[j]);
            j += 1;
            assert(extra@ =~= self.extra_endpoints@.take(j as int));
        }
        assert(key@ =~= self.key@);
        assert(extra@ =~= self.extra_endpoints@);
        Rendezvous {
            public_ip: self.public_ip,
            public_port: self.public_port,
            peer_id: self.peer_id.clone(),
            registered_at_unix_ms: self.registered_at_unix_ms,
            session_id: self.session_id.clone(),
            slot: self.slot,
            key,
            extra_endpoints: extra,
        }
    }
}

/// A slot of the peer: where it is and in which session.
#[derive(Debug)]
pub struct PeerSession {
    pub slot: u8,
    pub session_id: Guid,
    pub addr: Endpoint,
    /// The vector that the peer wants everything masked with that is sent to this slot.
    pub key: XorKey,
    /// Other outside addresses of the same socket.
    pub extra: Vec<Endpoint>,
}

/// What is known of a slot of the peer.
pub struct SessionModel {
    pub slot: u8,
    pub session_id: Guid,
    pub addr: Endpoint,
    pub key: Seq<u8>,
    pub extra: Seq<Endpoint>,
}

impl View for PeerSession {
    type V = SessionModel;

    open spec fn view(&self) -> SessionModel {
        SessionModel {
            slot: self.slot,
            session_id: self.session_id,
            addr: self.addr,
            key: self.key@,
            extra: self.extra@,
        }
    }
}

impl PeerSession {
    /// All addresses to knock at: the main one, then the others.
    pub fn candidates(&self) -> (all: Vec<Endpoint>)
        ensures
            all@ == knocked(self@),
    {
        let mut all: Vec<Endpoint> = Vec::new();
        all.push(self.addr);
        add_without(&mut all, self.extra.as_slice(), 0, self.addr);
        assert(self.extra@.skip(0) =~= self.extra@);
        assert(all@ =~= knocked(self@));
        all
    }

    /// A copy of the session.
    pub fn copy(&self) -> (copy: PeerSession)
        ensures
            copy@ == self@,
    {
        let mut extra: Vec<Endpoint> = Vec::new();
        let mut j: usize = 0;
        while j < self.extra.len()
            invariant
                j <= self.extra@.len(),
                extra@ == self.extra@.take(j as int),
            decreases self.extra@.len() - j,
        {
            extra.push(self.extra[j]);
            j += 1;
            assert(extra@ =~= self.extra@.take(j as int));
        }
        assert(extra@ =~= self.extra@);
        PeerSession {
            slot: self.slot,
            session_id: self.session_id,
            addr: self.addr,
            key: self.key,
            extra,
        }
    }
}

/// The addresses to knock at for a session.
pub open spec fn knocked(session: SessionModel) -> Seq<Endpoint> {
    seq![session.addr] + without(session.extra, session.addr)
}

/// Why a record is of no use.
#[derive(Clone, Copy, Debug, PartialEq, Eq, Structural)]
pub enum RecordError {
    /// The slot does not fit a byte.
    Slot,
    /// The session is no GUID.
    Session,
    /// The public address is no address.
    Address,
    /// The vector is not 16 bytes long.
    Key,
}

impl RecordError {
    /// The error as text.
    pub fn text(self) -> (text: &'static str)
        ensures
            text@ == match self {
                RecordError::Slot => "slot вне диапазона u8"@,
                RecordError::Session => "некорректный session_id"@,
                RecordError::Address => "некорректный public_ip"@,
                RecordError::Key => "key должен быть ровно 16 байт"@,
            },
    {
        match self {
            RecordError::Slot => "slot вне диапазона u8",
            RecordError::Session => "некорректный session_id",
            RecordError::Address => "некорректный public_ip",
            RecordError::Key => "key должен быть ровно 16 байт",
        }
    }
}

/// The endpoint that a further address denotes: it has an address and a port from 1 to 65535.
pub open spec fn usable(a: RecordAddress) -> Option<Endpoint> {
    match a.ip {
        Some(ip) => if 0 < a.port <= u16::MAX {
            Some(endpoint_at(ip, a.port as u16))
        } else {
            None
        },
        None => None,
    }
}

/// The endpoints that further addresses denote; the broken ones are skipped.
pub open spec fn usable_all(s: Seq<RecordAddress>) -> Seq<Endpoint>
    decreases s.len(),
{
    if s.len() == 0 {
        Seq::empty()
    } else {
        match usable(s.last()) {
            Some(e) => usable_all(s.drop_last()).push(e),
            None => usable_all(s.drop_last()),
        }
    }
}

/// What a record says of its slot, or the first thing that is wrong with it.
pub open spec fn session_in(r: RecordModel) -> Result<SessionModel, RecordError> {
    if r.slot > u8::MAX {
        Err(RecordError::Slot)
    } else if guid_of_text(r.session_id) is None {
        Err(RecordError::Session)
    } else if r.public_ip is None {
        Err(RecordError::Address)
    } else if r.key.len() != 16 {
        Err(RecordError::Key)
    } else {
        Ok(
            SessionModel {
                slot: r.slot as u8,
                session_id: Guid { value: guid_of_text(r.session_id)->0 },
                addr: endpoint_at(r.public_ip->0, (r.public_port % 0x1_0000) as u16),
                key: r.key,
                extra: usable_all(r.extra_endpoints),
            },
        )
    }
}

fn key_of(bytes: &Vec<u8>) -> (key: XorKey)
    requires
        bytes@.len() == 16,
    ensures
        key@ == bytes@,
{
    let mut key: [u8; 16] = [0u8; 16];
    let mut i: usize = 0;
    while i < 16
        invariant
            i <= 16,
            bytes@.len() == 16,
            forall|k: int| 0 <= k < i ==> key@[k] == bytes@[k],
        decreases 16 - i,
    {
        key[i] = bytes[i];
        i += 1;
    }
    assert(key@ =~= bytes@);
    key
}

fn usable_endpoints(list: &Vec<RecordAddress>) -> (out: Vec<Endpoint>)
    ensures
        out@ == usable_all(list@),
{
    let mut out: Vec<Endpoint> = Vec::new();
    let mut i: usize = 0;
    assert(list@.take(0) =~= Seq::<RecordAddress>::empty());
    while i < list.len()
        invariant
            i <= list@.len(),
            out@ == usable_all(list@.take(i as int)),
        decreases list@.len() - i,
    {
        proof {
            assert(list@.take(i + 1).drop_last() =~= list@.take(i as int));
            assert(list@.take(i + 1).last() == list@[i as int]);
        }
        let a = list[i];
        if let Some(ip) = a.ip {
            if a.port > 0 && a.port <= 65535 {
                out.push(Endpoint::new(ip, a.port as u16));
            }
        }
        i += 1;
    }
    assert(list@.take(list@.len() as int) =~= list@);
    out
}

/// Reads the record of a slot, from the broker or from a live hole.
pub fn peer_session_from(r: &Rendezvous) -> (session: Result<PeerSession, RecordError>)
    ensures
        match session {
            Ok(s) => session_in(r@) == Ok::<SessionModel, RecordError>(s@),
            Err(e) => session_in(r@) == Err::<SessionModel, RecordError>(e),
        },
{
    if r.slot > 255 {
        return Err(RecordError::Slot);
    }
    let session_id = match Guid::parse(r.session_id.as_str()) {
        Some(id) => id,
        None => {
            return Err(RecordError::Session);
        },
    };
    let ip = match r.public_ip {
        Some(ip) => ip,
        None => {
            return Err(RecordError::Address);
        },
    };
    if r.key.len() != 16 {
        return Err(RecordError::Key);
    }
    Ok(
        PeerSession {
            slot: r.slot as u8,
            session_id,
            addr: Endpoint::new(ip, (r.public_port % 0x1_0000) as u16),
            key: key_of(&r.key),
            extra: usable_endpoints(&r.extra_endpoints),
        },
    )
}

/// Reads a record that came under a topic of the peer: nothing, where it is not about this peer.
pub fn peer_session_of(r: &Rendezvous, peer_id: Guid) -> (session: Result<
    Option<PeerSession>,
    RecordError,
>)
    ensures
        match session {
            Ok(None) => r.peer_id@ != guid_text(peer_id.value),
            Ok(Some(s)) => r.peer_id@ == guid_text(peer_id.value) && session_in(r@) == Ok::<
                SessionModel,
                RecordError,
            >(s@),
            Err(e) => r.peer_id@ == guid_text(peer_id.value) && session_in(r@) == Err::<
                SessionModel,
                RecordError,
            >(e),
        },
{
    if !same_text(r.peer_id.as_str(), peer_id.text().as_str()) {
        return Ok(None);
    }
    match peer_session_from(r) {
        Ok(session) => Ok(Some(session)),
        Err(e) => Err(e),
    }
}

/// An endpoint as it stands in a record.
pub open spec fn as_record(e: Endpoint) -> RecordAddress {
    RecordAddress { ip: Some(e.ip), port: e.port as u32 }
}

/// The main one of the addresses of a slot: the first, or nowhere.
pub open spec fn primary(endpoints: Seq<Endpoint>) -> Endpoint {
    if endpoints.len() == 0 {
        endpoint_at(Ip::V4(0), 0)
    } else {
        endpoints[0]
    }
}

/// The addresses of a slot behind the main one.
pub open spec fn others(endpoints: Seq<Endpoint>) -> Seq<Endpoint> {
    if endpoints.len() == 0 {
        Seq::empty()
    } else {
        without(endpoints.skip(1), endpoints[0])
    }
}

/// The record of our slot.
pub open spec fn record_of(
    my_peer_id: Guid,
    slot: u8,
    session_id: Guid,
    endpoints: Seq<Endpoint>,
    key: Seq<u8>,
    registered_at_unix_ms: u64,
) -> RecordModel {
    RecordModel {
        public_ip: Some(primary(endpoints).ip),
        public_port: primary(endpoints).port as u32,
        peer_id: guid_text(my_peer_id.value),
        registered_at_unix_ms,
        session_id: guid_text(session_id.value),
        slot: slot as u32,
        key,
        extra_endpoints: others(endpoints).map_values(|e: Endpoint| as_record(e)),
    }
}

/// What the peer is to read from the record of our slot: addresses and ports alone, and of the
/// further addresses those that have a port.
pub open spec fn announced(
    slot: u8,
    session_id: Guid,
    endpoints: Seq<Endpoint>,
    key: Seq<u8>,
) -> SessionModel {
    SessionModel {
        slot,
        session_id,
        addr: primary(endpoints).plain(),
        key,
        extra: with_port(others(endpoints)).map_values(|e: Endpoint| e.plain()),
    }
}

/// Builds the record of our slot. `endpoints` are the outside addresses of its socket: the first
/// is the main one, the others follow as further addresses. The peer reads the slot back from it.
pub fn our_record(
    my_peer_id: Guid,
    slot: u8,
    session_id: Guid,
    endpoints: &[Endpoint],
    key: XorKey,
    registered_at_unix_ms: u64,
) -> (record: Rendezvous)
    ensures
        record@ == record_of(
            my_peer_id,
            slot,
            session_id,
            endpoints@,
            key@,
            registered_at_unix_ms,
        ),
        session_in(record@) == Ok::<SessionModel, RecordError>(
            announced(slot, session_id, endpoints@, key@),
        ),
{
    let main = if endpoints.len() == 0 {
        Endpoint::new(Ip::V4(0), 0)
    } else {
        endpoints[0]
    };
    let mut rest: Vec<Endpoint> = Vec::new();
    if endpoints.len() > 0 {
        add_without(&mut rest, endpoints, 1, main);
    }
    assert(rest@ =~= others(endpoints@));
    let mut extra: Vec<RecordAddress> = Vec::new();
    let mut i: usize = 0;
    while i < rest.len()
        invariant
            i <= rest@.len(),
            extra@ == rest@.take(i as int).map_values(|e: Endpoint| as_record(e)),
        decreases rest@.len() - i,
    {
        extra.push(RecordAddress { ip: Some(rest[i].ip), port: rest[i].port as u32 });
        i += 1;
        assert(extra@ =~= rest@.take(i as int).map_values(|e: Endpoint| as_record(e)));
    }
    assert(rest@.take(rest@.len() as int) =~= rest@);
    let mut bytes: Vec<u8> = Vec::new();
    let mut j: usize = 0;
    while j < 16
        invariant
            j <= 16,
            bytes@ == key@.take(j as int),
        decreases 16 - j,
    {
        bytes.push(key[j]);
        j += 1;
        assert(bytes@ =~= key@.take(j as int));
    }
    assert(bytes@ =~= key@);
    proof {
        lemma_usable_of_records(others(endpoints@));
    }
    Rendezvous {
        public_ip: Some(main.ip),
        public_port: main.port as u32,
        peer_id: my_peer_id.text(),
        registered_at_unix_ms,
        session_id: session_id.text(),
        slot: slot as u32,
        key: bytes,
        extra_endpoints: extra,
    }
}

/// Builds the record to publish at the broker: nothing, where the slot has no outside address.
pub fn publication(
    my_peer_id: Guid,
    slot: u8,
    session_id: Guid,
    endpoints: &[Endpoint],
    key: XorKey,
    now_unix_ms: u64,
) -> (record: Option<Rendezvous>)
    ensures
        record is None <==> endpoints@.len() == 0,
        record matches Some(r) ==> r@ == record_of(
            my_peer_id,
            slot,
            session_id,
            endpoints@,
            key@,
            now_unix_ms,
        ),
{
    if endpoints.len() == 0 {
        return None;
    }
    Some(our_record(my_peer_id, slot, session_id, endpoints, key, now_unix_ms))
}

/// The topic of a slot.
pub fn slot_topic(peer_id: Guid, slot: u8) -> (topic: String)
    ensures
        topic@ == "home-proxy/rendezvous/"@ + guid_text(peer_id.value) + "/"@ + decimal(slot as nat),
{
    let mut topic: String = String::new();
    topic.append("home-proxy/rendezvous/");
    topic.append(peer_id.text().as_str());
    topic.append("/");
    push_decimal(&mut topic, slot as u64);
    assert(topic@ =~= "home-proxy/rendezvous/"@ + guid_text(peer_id.value) + "/"@ + decimal(
        slot as nat,
    ));
    topic
}

/// The topics of all slots of a peer.
pub fn peer_wildcard(peer_id: Guid) -> (topic: String)
    ensures
        topic@ == "home-proxy/rendezvous/"@ + guid_text(peer_id.value) + "/+"@,
{
    let mut topic: String = String::new();
    topic.append("home-proxy/rendezvous/");
    topic.append(peer_id.text().as_str());
    topic.append("/+");
    assert(topic@ =~= "home-proxy/rendezvous/"@ + guid_text(peer_id.value) + "/+"@);
    topic
}

/// The endpoints that have a port.
pub open spec fn with_port(s: Seq<Endpoint>) -> Seq<Endpoint>
    decreases s.len(),
{
    if s.len() == 0 {
        Seq::empty()
    } else if s.last().port == 0 {
        with_port(s.drop_last())
    } else {
        with_port(s.drop_last()).push(s.last())
    }
}

proof fn lemma_usable_of_records(s: Seq<Endpoint>)
    ensures
        usable_all(s.map_values(|e: Endpoint| as_record(e))) == with_port(s).map_values(
            |e: Endpoint| e.plain(),
        ),
    decreases s.len(),
{
    let mapped = s.map_values(|e: Endpoint| as_record(e));
    if s.len() > 0 {
        lemma_usable_of_records(s.drop_last());
        assert(mapped.drop_last() =~= s.drop_last().map_values(|e: Endpoint| as_record(e)));
        assert(mapped.last() == as_record(s.last()));
        assert(with_port(s).map_values(|e: Endpoint| e.plain()) =~= if s.last().port == 0 {
            with_port(s.drop_last()).map_values(|e: Endpoint| e.plain())
        } else {
            with_port(s.drop_last()).map_values(|e: Endpoint| e.plain()).push(s.last().plain())
        });
    } else {
        assert(mapped =~= Seq::empty());
        assert(with_port(s).map_values(|e: Endpoint| e.plain()) =~= Seq::empty());
    }
}

proof fn lemma_all_with_port(s: Seq<Endpoint>)
    requires
        forall|i: int| 0 <= i < s.len() ==> (#[trigger] s[i]).port != 0,
    ensures
        with_port(s) == s,
    decreases s.len(),
{
    if s.len() > 0 {
        assert forall|i: int| 0 <= i < s.drop_last().len() implies (
        #[trigger] s.drop_last()[i]).port != 0 by {
            assert(s.drop_last()[i] == s[i]);
        }
        lemma_all_with_port(s.drop_last());
        assert(s.last() == s[s.len() - 1]);
        assert(s.drop_last().push(s.last()) =~= s);
    }
}

/// Where every address of the slot has a port, the peer knocks at exactly the addresses of the
/// slot (their addresses and ports alone), at the main one first and at no other place.
pub proof fn law_peer_knocks_at_every_address(
    slot: u8,
    session_id: Guid,
    endpoints: Seq<Endpoint>,
    key: Seq<u8>,
)
    requires
        endpoints.len() > 0,
        forall|i: int| 0 <= i < endpoints.len() ==> (#[trigger] endpoints[i]).port != 0,
    ensures
        knocked(announced(slot, session_id, endpoints, key))[0] == endpoints[0].plain(),
        forall|e: Endpoint| #[trigger]
            knocked(announced(slot, session_id, endpoints, key)).contains(e)
                <==> endpoints.map_values(|e: Endpoint| e.plain()).contains(e),
{
    let plain = |e: Endpoint| e.plain();
    let rest = endpoints.skip(1);
    let main = endpoints[0];
    let places = endpoints.map_values(plain);
    lemma_without(rest, main);
    let extra = without(rest, main);
    assert forall|i: int| 0 <= i < extra.len() implies (#[trigger] extra[i]).port != 0 by {
        assert(extra.contains(extra[i]));
        let k = choose|k: int| 0 <= k < rest.len() && rest[k] == extra[i];
        assert(endpoints[k + 1] == extra[i]);
    }
    lemma_all_with_port(extra);
    let further = extra.map_values(plain);
    lemma_without(further, main.plain());
    let tail = without(further, main.plain());
    let all = seq![main.plain()] + tail;
    assert forall|e: Endpoint| #[trigger] all.contains(e) <==> places.contains(e) by {
        if places.contains(e) {
            let k = choose|k: int| 0 <= k < places.len() && places[k] == e;
            if e == main.plain() {
                assert(all[0] == e);
            } else {
                assert(endpoints[k] != main);
                assert(rest[k - 1] == endpoints[k]);
                assert(extra.contains(endpoints[k]));
                let x = choose|x: int| 0 <= x < extra.len() && extra[x] == endpoints[k];
                assert(further[x] == e);
                assert(tail.contains(e));
                let j = choose|j: int| 0 <= j < tail.len() && tail[j] == e;
                assert(all[j + 1] == e);
            }
        }
        if all.contains(e) {
            let j = choose|j: int| 0 <= j < all.len() && all[j] == e;
            if j == 0 {
                assert(places[0] == e);
            } else {
                assert(tail[j - 1] == e);
                assert(tail.contains(e));
                assert(further.contains(e));
                let x = choose|x: int| 0 <= x < further.len() && further[x] == e;
                assert(extra.contains(extra[x]));
                let k = choose|k: int| 0 <= k < rest.len() && rest[k] == extra[x];
                assert(endpoints[k + 1] == extra[x]);
                assert(places[k + 1] == e);
            }
        }
    }
}

/// What one end announces the other one reads: the slot, the session, the vector, the first of the
/// addresses as the main one, and every other one that has a port.
pub proof fn law_a_record_is_read_back(
    my_peer_id: Guid,
    slot: u8,
    session_id: Guid,
    endpoints: &[Endpoint],
    key: XorKey,
    registered_at_unix_ms: u64,
    record: Rendezvous,
    read: Result<PeerSession, RecordError>,
    e: Endpoint,
)
    requires
        call_ensures(
            our_record,
            (my_peer_id, slot, session_id, endpoints, key, registered_at_unix_ms),
            record,
        ),
        call_ensures(peer_session_from, (&record,), read),
        endpoints@.len() > 0,
    ensures
        record.peer_id@ == guid_text(my_peer_id.value),
        record.registered_at_unix_ms == registered_at_unix_ms,
        read matches Ok(s) && {
            &&& s.slot == slot
            &&& s.session_id == session_id
            &&& s.key@ == key@
            &&& s.addr.ip == endpoints@[0].ip && s.addr.port == endpoints@[0].port
            &&& endpoints@.contains(e) && e.port > 0 && e != endpoints@[0] ==> s.extra@.contains(
                endpoint_at(e.ip, e.port),
            )
        },
{
    let main = endpoints@[0];
    let rest = others(endpoints@);
    lemma_without(endpoints@.skip(1), main);
    if endpoints@.contains(e) && e.port > 0 && e != main {
        let i = choose|i: int| 0 <= i < endpoints@.len() && endpoints@[i] == e;
        assert(endpoints@.skip(1)[i - 1] == e);
        assert(rest.contains(e));
        lemma_port_kept(rest, e);
        let kept = with_port(rest);
        let k = choose|k: int| 0 <= k < kept.len() && kept[k] == e;
        assert(kept.map_values(|e: Endpoint| e.plain())[k] == e.plain());
    }
}

proof fn lemma_port_kept(s: Seq<Endpoint>, e: Endpoint)
    requires
        s.contains(e),
        e.port > 0,
    ensures
        with_port(s).contains(e),
    decreases s.len(),
{
    let i = choose|i: int| 0 <= i < s.len() && s[i] == e;
    if i < s.len() - 1 {
        assert(s.drop_last()[i] == e);
        lemma_port_kept(s.drop_last(), e);
        let a = with_port(s.drop_last());
        let k = choose|k: int| 0 <= k < a.len() && a[k] == e;
        assert(with_port(s)[k] == e);
    } else {
        let b = with_port(s);
        assert(b[b.len() - 1] == e);
    }
}

/// A record is of use if its slot fits a byte, its session is a GUID, its address is one and its
/// vector has 16 bytes; the first of these that fails is reported.
pub proof fn law_broken_records_are_told(r: &Rendezvous, read: Result<PeerSession, RecordError>)
    requires
        call_ensures(peer_session_from, (r,), read),
    ensures
        ({
            let (fits, guid) = (r.slot <= 255, guid_of_text(r.session_id@) is Some);
            let (address, vector) = (r.public_ip is Some, r.key@.len() == 16);
            &&& read is Ok <==> fits && guid && address && vector
            &&& read == Err::<PeerSession, RecordError>(RecordError::Slot) <==> !fits
            &&& read == Err::<PeerSession, RecordError>(RecordError::Session) <==> fits && !guid
            &&& read == Err::<PeerSession, RecordError>(RecordError::Address) <==> fits && guid
                && !address
            &&& read == Err::<PeerSession, RecordError>(RecordError::Key) <==> fits && guid && address
                && !vector
            &&& read matches Ok(s) ==> {
                &&& s.slot == r.slot
                &&& Some(s.session_id.value) == guid_of_text(r.session_id@)
                &&& Some(s.addr.ip) == r.public_ip
                &&& r.public_port <= 65535 ==> s.addr.port == r.public_port
                &&& s.key@ == r.key@
            }
        }),
{
}

/// Of the further addresses of a record exactly those are taken that have an address and a port
/// from 1 to 65535.
pub proof fn law_further_addresses_need_a_port(
    r: &Rendezvous,
    read: Result<PeerSession, RecordError>,
    ip: Ip,
    port: u16,
)
    requires
        call_ensures(peer_session_from, (r,), read),
    ensures
        read matches Ok(s) ==> (s.extra@.contains(endpoint_at(ip, port)) <==> port > 0
            && r.extra_endpoints@.contains(RecordAddress { ip: Some(ip), port: port as u32 })),
{
    lemma_usable_all(r.extra_endpoints@, ip, port);
}

proof fn lemma_usable_all(s: Seq<RecordAddress>, ip: Ip, port: u16)
    ensures
        usable_all(s).contains(endpoint_at(ip, port)) <==> port > 0 && s.contains(
            RecordAddress { ip: Some(ip), port: port as u32 },
        ),
    decreases s.len(),
{
    let (e, a) = (endpoint_at(ip, port), RecordAddress { ip: Some(ip), port: port as u32 });
    if s.len() > 0 {
        let t = s.drop_last();
        lemma_usable_all(t, ip, port);
        let (x, y) = (usable_all(t), usable_all(s));
        assert(s[s.len() - 1] == s.last());
        if x.contains(e) {
            let k = choose|k: int| 0 <= k < x.len() && x[k] == e;
            assert(y[k] == e);
        }
        if t.contains(a) {
            let i = choose|i: int| 0 <= i < t.len() && t[i] == a;
            assert(s[i] == a);
        }
        if s.contains(a) && !t.contains(a) {
            let i = choose|i: int| 0 <= i < s.len() && s[i] == a;
            if i < t.len() {
                assert(t[i] == a);
            }
            if port > 0 {
                assert(y[y.len() - 1] == e);
            }
        }
        if y.contains(e) && !x.contains(e) {
            let k = choose|k: int| 0 <= k < y.len() && y[k] == e;
            if k < x.len() {
                assert(x[k] == e);
            }
        }
    }
}

/// Only records of the peer count; those of anybody else are passed over, broken or not.
pub proof fn law_only_records_of_the_peer_count(
    r: &Rendezvous,
    peer_id: Guid,
    session: Result<Option<PeerSession>, RecordError>,
    read: Result<PeerSession, RecordError>,
)
    requires
        call_ensures(peer_session_of, (r, peer_id), session),
        call_ensures(peer_session_from, (r,), read),
    ensures
        r.peer_id@ != guid_text(peer_id.value) <==> session matches Ok(None),
        r.peer_id@ == guid_text(peer_id.value) ==> match read {
            Ok(a) => session matches Ok(Some(b)) && b@ == a@,
            Err(e) => session matches Err(f) && f == e,
        },
{
}

/// A session is knocked at by its main address first, and by every other one that it has.
pub proof fn law_every_address_of_a_session_is_knocked_at(
    session: &PeerSession,
    all: Vec<Endpoint>,
    e: Endpoint,
)
    requires
        call_ensures(PeerSession::candidates, (session,), all),
    ensures
        all@.len() > 0,
        all@[0] == session.addr,
        all@.contains(e) <==> e == session.addr || session.extra@.contains(e),
{
    lemma_without(session.extra@, session.addr);
    let tail = without(session.extra@, session.addr);
    if tail.contains(e) {
        let k = choose|k: int| 0 <= k < tail.len() && tail[k] == e;
        assert(all@[k + 1] == e);
    }
    if all@.contains(e) && e != session.addr {
        let k = choose|k: int| 0 <= k < all@.len() && all@[k] == e;
        assert(tail[k - 1] == e);
    }
}

/// A slot without an outside address is not published; any other one is, as its record.
pub proof fn law_a_slot_without_an_address_is_not_published(
    my_peer_id: Guid,
    slot: u8,
    session_id: Guid,
    endpoints: &[Endpoint],
    key: XorKey,
    now_unix_ms: u64,
    published: Option<Rendezvous>,
    record: Rendezvous,
)
    requires
        call_ensures(
            publication,
            (my_peer_id, slot, session_id, endpoints, key, now_unix_ms),
            published,
        ),
        call_ensures(our_record, (my_peer_id, slot, session_id, endpoints, key, now_unix_ms), record),
    ensures
        published is None <==> endpoints@.len() == 0,
        published matches Some(r) ==> r@ == record@,
{
}

/// Who listens to the topics of a peer hears each of its slots: the topic of a slot is the common
/// one with the number of the slot in place of the sign for any.
pub proof fn law_topics_of_slots_are_listened_to(
    peer_id: Guid,
    slot: u8,
    topic: String,
    wildcard: String,
)
    requires
        call_ensures(slot_topic, (peer_id, slot), topic),
        call_ensures(peer_wildcard, (peer_id,), wildcard),
    ensures
        wildcard@.last() == '+',
        topic@ == wildcard@.drop_last() + decimal(slot as nat),
{
    reveal_strlit("/+");
    reveal_strlit("/");
    assert(topic@ =~= wildcard@.drop_last() + decimal(slot as nat));
}

/// A record counts for a minute.
pub proof fn law_records_count_for_a_minute()
    ensures
        REGISTRATION_TTL == 60,
{
}

} // verus!
