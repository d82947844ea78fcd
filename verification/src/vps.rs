//! A server with a public address: nothing has to be punched.
//!
//! The client knows the address and the bootstrap port of the server. There the two exchange the
//! records of slot 0; the other slots are agreed on over the live hole. Every registration of a
//! slot takes a random free port of a range, so that a bad hole moves to another port.

use crate::address_text::AddressTexts;
use crate::auth::{PairSecret, RENDEZVOUS_MAC_LEN};
use crate::bytes::{lemma_seventh_byte, read_le};
use crate::codec::lemma_version_bytes;
use crate::guid::{guid_text, Guid};
use crate::book_text::lemma_ipv4_text;
use crate::net::{endpoint_at, ipv4_text, law_ipv4_text_is_read_back, Endpoint, Ip};
use crate::rendezvous::{
    peer_session_of, session_in, PeerSession, RecordError, RecordModel, Rendezvous, SessionModel,
};
use crate::text::{decimal, is_digit, lemma_decimal, lemma_first_at_is, trim, trimmed};
use crate::text_laws::lemma_trimmed_same;
use vstd::prelude::*;
use vstd::slice::slice_subrange;

verus! {

/// The bootstrap port, where none is given.
pub const DEFAULT_BOOTSTRAP_PORT: u16 = 40000;

/// The lowest port for slots, where no range is given.
pub const DEFAULT_SLOT_LOW: u16 = 40001;

/// The highest port for slots, where no range is given.
pub const DEFAULT_SLOT_HIGH: u16 = 49999;

/// How many ports are tried before giving up.
pub const BIND_ATTEMPTS: usize = 64;

/// The ports from `low` to `high`.
#[derive(Clone, Copy, Debug, PartialEq, Eq, Structural)]
pub struct PortRange {
    pub low: u16,
    pub high: u16,
}

impl PortRange {
    /// The range holds the port.
    pub open spec fn spans(self, port: u16) -> bool {
        self.low <= port <= self.high
    }

    /// The range holds the port.
    pub fn contains(&self, port: u16) -> (is: bool)
        ensures
            is == self.spans(port),
    {
        self.low <= port && port <= self.high
    }
}

/// The server that a text denotes: an address with a port, or an address alone, to which the
/// default port is added.
pub open spec fn server_in(text: Seq<char>, texts: AddressTexts) -> Option<Endpoint> {
    match texts.denotes(text) {
        Some(server) => Some(server),
        None => match texts.denotes_ip(text) {
            Some(ip) => Some(endpoint_at(ip, DEFAULT_BOOTSTRAP_PORT)),
            None => None,
        },
    }
}

/// Reads the address of a server, with or without a port.
pub fn parse_server(value: &str, texts: &AddressTexts) -> (server: Option<Endpoint>)
    ensures
        server == server_in(trimmed(value@), *texts),
{
    let text: &str = trim(value);
    match texts.endpoint(text) {
        Some(server) => Some(server),
        None => match texts.ip(text) {
            Some(ip) => Some(Endpoint::new(ip, DEFAULT_BOOTSTRAP_PORT)),
            None => None,
        },
    }
}

/// The port of the range that a random number falls on.
pub open spec fn drawn(range: PortRange, random: u64) -> int {
    range.low + random as int % (range.high - range.low + 1)
}

/// What came of one draw.
#[derive(Clone, Copy, Debug, PartialEq, Eq, Structural)]
pub enum Draw {
    /// Try to bind this port.
    Port(u16),
    /// The draw fell on the excluded port.
    Excluded,
    /// No attempt is left.
    Exhausted,
}

/// The search for a free port of a range.
pub struct PortSearch {
    range: PortRange,
    exclude: u16,
    left: usize,
}

/// What is known of a search.
pub struct SearchModel {
    pub range: PortRange,
    pub exclude: u16,
    /// The attempts that are left.
    pub left: nat,
}

impl View for PortSearch {
    type V = SearchModel;

    closed spec fn view(&self) -> SearchModel {
        SearchModel { range: self.range, exclude: self.exclude, left: self.left as nat }
    }
}

impl PortSearch {
    #[verifier::type_invariant]
    spec fn wf(self) -> bool {
        self.range.low <= self.range.high
    }

    /// A search in a range, unless the range is empty.
    pub fn new(range: PortRange, exclude: u16) -> (search: Option<Self>)
        ensures
            search is Some <==> range.low <= range.high,
            search matches Some(s) ==> s@ == (SearchModel {
                range,
                exclude,
                left: BIND_ATTEMPTS as nat,
            }),
    {
        if range.low > range.high {
            return None;
        }
        Some(PortSearch { range, exclude, left: BIND_ATTEMPTS })
    }

    /// One attempt with a random number.
    pub fn draw(&mut self, random: u64) -> (draw: Draw)
        ensures
            final(self)@.range == old(self)@.range,
            final(self)@.exclude == old(self)@.exclude,
            old(self)@.left == 0 ==> draw == Draw::Exhausted && final(self)@.left == 0,
            old(self)@.left > 0 ==> {
                &&& final(self)@.left == old(self)@.left - 1
                &&& draw == if drawn(old(self)@.range, random) == old(self)@.exclude {
                    Draw::Excluded
                } else {
                    Draw::Port(drawn(old(self)@.range, random) as u16)
                }
            },
            draw matches Draw::Port(port) ==> {
                &&& old(self)@.range.spans(port)
                &&& port != old(self)@.exclude
            },
    {
        proof {
            use_type_invariant(&*self);
        }
        if self.left == 0 {
            return Draw::Exhausted;
        }
        self.left = self.left - 1;
        let span: u64 = (self.range.high - self.range.low) as u64 + 1;
        let step: u64 = random % span;
        let port: u16 = self.range.low + step as u16;
        if port == self.exclude {
            return Draw::Excluded;
        }
        Draw::Port(port)
    }

    /// The next port to try with given random numbers: the one that the first of them falls on
    /// that does not fall on the excluded port. Every number that is used takes an attempt.
    pub fn first_of(&mut self, numbers: &Vec<u64>) -> (port: Option<u16>)
        ensures
            finds(old(self)@, numbers@, port, final(self)@),
            port matches Some(p) ==> old(self)@.range.spans(p),
    {
        let mut i: usize = 0;
        while i < numbers.len()
            invariant
                i <= numbers@.len(),
                i <= old(self)@.left,
                self@ == (SearchModel { left: (old(self)@.left - i) as nat, ..old(self)@ }),
                all_excluded(old(self)@, numbers@, i as int),
            decreases numbers@.len() - i,
        {
            match self.draw(numbers[i]) {
                Draw::Port(port) => {
                    return Some(port);
                },
                Draw::Excluded => {},
                Draw::Exhausted => {
                    return None;
                },
            }
            i += 1;
        }
        None
    }

    /// The next port to try, or nothing, when the attempts are used up: the first that random
    /// numbers, one for each attempt that is left, fall on besides the excluded one. Where the
    /// excluded port lies outside the range, every attempt gives a port.
    pub fn next(&mut self) -> (port: Option<u16>)
        ensures
            exists|numbers: Seq<u64>|
                numbers.len() == old(self)@.left && #[trigger] finds(
                    old(self)@,
                    numbers,
                    port,
                    final(self)@,
                ),
            port is None ==> final(self)@.left == 0,
            port matches Some(p) ==> {
                &&& old(self)@.range.spans(p)
                &&& p != old(self)@.exclude
                &&& final(self)@.left < old(self)@.left
            },
            old(self)@.left > 0 && !old(self)@.range.spans(old(self)@.exclude) ==> {
                &&& port is Some
                &&& final(self)@.left == old(self)@.left - 1
            },
    {
        proof {
            use_type_invariant(&*self);
        }
        let mut numbers: Vec<u64> = Vec::new();
        while numbers.len() < self.left
            invariant
                numbers@.len() <= self.left,
            decreases self.left - numbers@.len(),
        {
            numbers.push(random_number());
        }
        let port = self.first_of(&numbers);
        proof {
            if numbers@.len() > 0 {
                assert(old(self)@.range.spans(drawn(old(self)@.range, numbers@[0]) as u16));
            }
            if port is Some && self@.left < old(self)@.left - 1 {
                assert(drawn(old(self)@.range, numbers@[0]) == old(self)@.exclude);
            }
        }
        port
    }
}

/// The first `n` numbers fall on the excluded port.
pub open spec fn all_excluded(search: SearchModel, numbers: Seq<u64>, n: int) -> bool {
    forall|i: int|
        0 <= i < n ==> drawn(search.range, #[trigger] numbers[i]) == search.exclude as int
}

/// What a search finds with given numbers. A port is that of the first number that does not fall
/// on the excluded port, and takes an attempt for each number up to it. None is found only where
/// all numbers for which there are attempts fall on the excluded port.
pub open spec fn finds(
    before: SearchModel,
    numbers: Seq<u64>,
    port: Option<u16>,
    after: SearchModel,
) -> bool {
    let used = before.left - after.left;
    &&& after.range == before.range
    &&& after.exclude == before.exclude
    &&& match port {
        Some(p) => {
            &&& 1 <= used <= numbers.len()
            &&& all_excluded(before, numbers, used - 1)
            &&& p == drawn(before.range, numbers[used - 1])
            &&& p != before.exclude
        },
        None => {
            &&& used == if numbers.len() < before.left {
                numbers.len()
            } else {
                before.left
            }
            &&& all_excluded(before, numbers, used)
        },
    }
}

/// A random number: the first eight bytes of a random GUID, least significant first. Four of its
/// bits are the version of the GUID; the others are left to chance.
fn random_number() -> (number: u64)
    ensures
        number / 0x10_0000_0000_0000 % 16 == 4,
{
    let guid = Guid::random();
    let bytes = guid.to_bytes();
    let number: u64 = read_le(slice_subrange(bytes.as_slice(), 0, 8));
    proof {
        lemma_version_bytes(guid);
        lemma_seventh_byte(bytes@.subrange(0, 8));
    }
    number
}

/// The server's record of slot 0, while the slot waits for a client.
pub struct ServerBootstrap {
    current: Option<Rendezvous>,
}

impl View for ServerBootstrap {
    type V = Option<RecordModel>;

    closed spec fn view(&self) -> Option<RecordModel> {
        match self.current {
            Some(record) => Some(record@),
            None => None,
        }
    }
}

impl ServerBootstrap {
    pub fn set(&mut self, record: Option<Rendezvous>)
        ensures
            final(self)@ == match record {
                Some(r) => Some(r@),
                None => None,
            },
    {
        self.current = record;
    }

    /// The record to answer a client with, if slot 0 waits for one.
    pub fn current(&self) -> (record: Option<Rendezvous>)
        ensures
            record is Some <==> self@ is Some,
            record matches Some(r) ==> self@ == Some(r@),
    {
        match &self.current {
            Some(record) => Some(record.copy()),
            None => None,
        }
    }
}

impl Default for ServerBootstrap {
    fn default() -> (bootstrap: Self)
        ensures
            bootstrap@ is None,
    {
        Self { current: None }
    }
}

/// Which session was handed to slot 0 last. The same record comes again and again.
pub struct Feed {
    pub last: Option<Guid>,
}

impl Feed {
    pub fn new() -> (feed: Self)
        ensures
            feed.last is None,
    {
        Feed { last: None }
    }

    /// The session has to be handed over.
    pub fn is_new(&self, session: Guid) -> (is: bool)
        ensures
            is == (self.last != Some(session)),
    {
        match self.last {
            Some(last) => last != session,
            None => true,
        }
    }

    /// The session was handed over, or slot 0 did not take it.
    pub fn handed(&mut self, session: Guid, taken: bool)
        ensures
            final(self).last == if taken {
                Some(session)
            } else {
                old(self).last
            },
    {
        if taken {
            self.last = Some(session);
        }
    }
}

/// A record at the bootstrap port is accepted: it is of slot 0 of the expected peer, its
/// signature is right and it can be read.
pub open spec fn bootstraps(
    r: RecordModel,
    unsigned: Seq<u8>,
    signature: Seq<u8>,
    pair: PairSecret,
    peer: Guid,
) -> bool {
    &&& r.slot == 0
    &&& r.peer_id == guid_text(peer.value)
    &&& signature.len() == RENDEZVOUS_MAC_LEN
    &&& signature == pair.rendezvous_mac(unsigned).take(16)
    &&& session_in(r) is Ok
}

/// The session in a record at the bootstrap port. `unsigned` are the bytes of the record with an
/// empty signature, `signature` is what stood there.
pub fn bootstrap_session(
    record: &Rendezvous,
    unsigned: &[u8],
    signature: &[u8],
    pair: &PairSecret,
    peer: Guid,
) -> (session: Option<PeerSession>)
    ensures
        session is Some <==> bootstraps(record@, unsigned@, signature@, *pair, peer),
        session matches Some(s) ==> session_in(record@) == Ok::<SessionModel, RecordError>(s@),
{
    if record.slot != 0 || !pair.verify_rendezvous(unsigned, signature) {
        return None;
    }
    match peer_session_of(record, peer) {
        Ok(Some(session)) => Some(session),
        _ => None,
    }
}

/// Every port of a range can be drawn, and no other: the numbers fall on the ports in turn.
pub proof fn law_every_port_of_the_range_can_be_drawn(range: PortRange, port: u16, random: u64)
    requires
        range.low <= range.high,
    ensures
        range.low <= drawn(range, random) <= range.high,
        range.low <= port <= range.high ==> drawn(range, (port - range.low) as u64) == port,
        random < u64::MAX ==> drawn(range, (random + 1) as u64) == if drawn(range, random)
            == range.high {
            range.low as int
        } else {
            drawn(range, random) + 1
        },
{
    let n = range.high - range.low + 1;
    vstd::arithmetic::div_mod::lemma_fundamental_div_mod(random as int, n);
    vstd::arithmetic::div_mod::lemma_mod_bound(random as int, n);
    if range.low <= port <= range.high {
        vstd::arithmetic::div_mod::lemma_small_mod((port - range.low) as nat, n as nat);
    }
    let (q, r) = (random as int / n, random as int % n);
    if r + 1 < n {
        vstd::arithmetic::div_mod::lemma_fundamental_div_mod_converse(random + 1, n, q, r + 1);
    } else {
        assert(random + 1 == n * (q + 1)) by (nonlinear_arith)
            requires
                random as int == n * q + r,
                r + 1 == n,
        ;
        vstd::arithmetic::div_mod::lemma_fundamental_div_mod_converse(random + 1, n, q + 1, 0);
    }
}

/// One draw takes one of 64 attempts and gives the port that the number falls on, unless that is
/// the excluded one.
pub proof fn law_a_draw_takes_an_attempt(random: u64)
    ensures
        forall|s: &mut PortSearch, draw: Draw| #[trigger]
            call_ensures(PortSearch::draw, (s, random), draw) && (*s)@.range.low <= (*s)@.range.high
                ==> {
                let span = (*s)@.range.high - (*s)@.range.low + 1;
                let port = (*s)@.range.low + random as int % span;
                &&& (*s)@.left == 0 <==> draw is Exhausted
                &&& (*s)@.left > 0 ==> final(s)@.left == (*s)@.left - 1
                &&& (*s)@.left > 0 && port == (*s)@.exclude ==> draw is Excluded
                &&& (*s)@.left > 0 && port != (*s)@.exclude ==> draw == Draw::Port(port as u16)
            },
        forall|range: PortRange, exclude: u16, s: Option<PortSearch>| #[trigger]
            call_ensures(PortSearch::new, (range, exclude), s) ==> {
                &&& s is Some <==> range.low <= range.high
                &&& s matches Some(x) ==> x@.left == 64 && x@.range == range && x@.exclude == exclude
            },
{
}

/// A port lies in a range if it is neither below nor above it.
pub proof fn law_a_range_holds_its_bounds(range: &PortRange, port: u16, is_in: bool)
    requires
        call_ensures(PortRange::contains, (range, port), is_in),
    ensures
        is_in <==> range.low <= port && port <= range.high,
{
}

/// A server is named by an address alone, and has port 40000 then, or by an address and a port;
/// white space around it does not matter.
pub proof fn law_a_server_without_a_port_has_the_bootstrap_port(
    value: &str,
    texts: &AddressTexts,
    server: Option<Endpoint>,
    ip: u32,
    port: u16,
)
    requires
        call_ensures(parse_server, (value, texts), server),
        texts.endpoints@.len() == 0,
    ensures
        value@ == ipv4_text(ip) ==> server == Some(endpoint_at(Ip::V4(ip), 40000)),
        value@ == ipv4_text(ip) + seq![':'] + decimal(port as nat) ==> server == Some(
            endpoint_at(Ip::V4(ip), port),
        ),
{
    let t = ipv4_text(ip);
    let d = decimal(port as nat);
    lemma_ipv4_text(ip);
    law_ipv4_text_is_read_back(ip);
    lemma_decimal(port as nat);
    assert forall|i: int| 0 <= i < t.len() implies t[i] != ':' by {
        assert(is_digit(t[i]) || t[i] == '.');
    }
    if value@ == t {
        assert(is_digit(t[0]) && is_digit(t.last()));
        lemma_trimmed_same(value@);
        lemma_first_at_is(value@, ':', t.len() as int);
    }
    if value@ == t + seq![':'] + d {
        assert(value@.last() == d.last());
        assert(is_digit(d[d.len() - 1]));
        assert(value@[0] == t[0]);
        lemma_trimmed_same(value@);
        lemma_first_at_is(value@, ':', t.len() as int);
        assert(value@.take(t.len() as int) =~= t);
        assert(value@.skip(t.len() as int + 1) =~= d);
    }
}

/// The record that is answered at the bootstrap port is the one that was set last, and none, where
/// it was withdrawn.
pub proof fn law_the_last_record_is_answered()
    ensures
        forall|b: &mut ServerBootstrap, record: Option<Rendezvous>| #[trigger]
            call_ensures(ServerBootstrap::set, (b, record), ()) ==> {
                &&& record is None <==> final(b)@ is None
                &&& record matches Some(r) ==> final(b)@ == Some(r@)
            },
        forall|b: &ServerBootstrap, record: Option<Rendezvous>| #[trigger]
            call_ensures(ServerBootstrap::current, (b,), record) ==> {
                &&& record is None <==> b@ is None
                &&& record matches Some(r) ==> b@ == Some(r@)
            },
{
}

/// A session is fed to slot 0 until it was taken, and not again before another one was.
pub proof fn law_a_session_is_fed_once(session: Guid, other: Guid)
    requires
        other != session,
    ensures
        forall|f: &mut Feed, taken: bool| #[trigger]
            call_ensures(Feed::handed, (f, session, taken), ()) ==> {
                &&& taken ==> final(f).last == Some(session)
                &&& !taken ==> final(f).last == (*f).last
            },
        forall|f: &Feed, s: Guid, is_new: bool| #[trigger]
            call_ensures(Feed::is_new, (f, s), is_new) ==> (is_new <==> f.last != Some(s)),
{
}

/// At the bootstrap port only a record of slot 0 counts that names the peer, is signed with the
/// secret of the pair, and can be read; its session is what it says.
pub proof fn law_only_signed_records_of_slot_0_count(
    record: &Rendezvous,
    unsigned: &[u8],
    signature: &[u8],
    pair: &PairSecret,
    peer: Guid,
    session: Option<PeerSession>,
)
    requires
        call_ensures(bootstrap_session, (record, unsigned, signature, pair, peer), session),
    ensures
        session is Some ==> record.slot == 0 && record.peer_id@ == guid_text(peer.value)
            && pair.signs(unsigned@, signature@),
        record.slot == 0 && record.peer_id@ == guid_text(peer.value) && pair.signs(
            unsigned@,
            signature@,
        ) && session_in(record@) is Ok ==> session is Some,
        session matches Some(s) ==> s.slot == 0 && record.public_ip == Some(s.addr.ip) && s.key@
            == record.key@,
{
}

/// Of a row of random numbers the first counts whose port is not the excluded one; every number up
/// to it takes an attempt. Where none is left of the numbers, there is no port.
pub proof fn law_the_first_fitting_number_counts(numbers: &Vec<u64>, k: int)
    requires
        0 <= k <= numbers@.len(),
    ensures
        forall|s: &mut PortSearch, port: Option<u16>| #[trigger]
            call_ensures(PortSearch::first_of, (s, numbers), port) ==> {
                let (before, after) = ((*s)@, final(s)@);
                let span = before.range.high - before.range.low + 1;
                let at = |i: int| before.range.low + numbers@[i] as int % span;
                span > 0 && numbers@.len() <= before.left && (forall|i: int|
                    0 <= i < k ==> #[trigger] numbers@[i] as int % span + before.range.low
                        == before.exclude) ==> {
                    &&& k < numbers@.len() && at(k) != before.exclude ==> port == Some(at(k) as u16)
                        && after.left == before.left - k - 1
                    &&& k == numbers@.len() ==> port is None && after.left == before.left - k
                }
            },
{
    assert forall|s: &mut PortSearch, port: Option<u16>| #[trigger]
        call_ensures(PortSearch::first_of, (s, numbers), port) implies {
        let (before, after) = ((*s)@, final(s)@);
        let span = before.range.high - before.range.low + 1;
        let at = |i: int| before.range.low + numbers@[i] as int % span;
        span > 0 && numbers@.len() <= before.left && (forall|i: int|
            0 <= i < k ==> #[trigger] numbers@[i] as int % span + before.range.low == before.exclude)
            ==> {
            &&& k < numbers@.len() && at(k) != before.exclude ==> port == Some(at(k) as u16)
                && after.left == before.left - k - 1
            &&& k == numbers@.len() ==> port is None && after.left == before.left - k
        }
    } by {
        let (before, after) = ((*s)@, final(s)@);
        let used = before.left - after.left;
        let span = before.range.high - before.range.low + 1;
        if span > 0 && numbers@.len() <= before.left && (forall|i: int|
            0 <= i < k ==> #[trigger] numbers@[i] as int % span + before.range.low == before.exclude) {
            if port is Some && used - 1 < k {
                assert(numbers@[used - 1] as int % span + before.range.low == before.exclude);
            }
            if k < numbers@.len() {
                assert(drawn(before.range, numbers@[k]) == before.range.low + numbers@[k] as int % span);
            }
        }
    }
}

/// A search that may still try finds a port of its range, other than the excluded one, with its
/// first attempt where the excluded one lies outside.
pub proof fn law_a_search_finds_a_port_of_its_range()
    ensures
        forall|s: &mut PortSearch, port: Option<u16>| #[trigger]
            call_ensures(PortSearch::next, (s,), port) ==> {
                let (before, after) = ((*s)@, final(s)@);
                &&& port matches Some(p) ==> before.range.low <= p <= before.range.high && p
                    != before.exclude && after.left < before.left
                &&& port is None ==> after.left == 0
                &&& before.left > 0 && (before.exclude < before.range.low || before.exclude
                    > before.range.high) ==> port is Some && after.left == before.left - 1
                &&& before.left == 0 ==> port is None
            },
{
}

} // verus!
