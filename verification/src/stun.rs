//! A minimal STUN client: a Binding Request, and our public address from the XOR-MAPPED-ADDRESS
//! attribute of the response. IPv4 only.

use crate::bytes::{
    be16, be_bytes, be_value, le_bytes, lemma_be_bytes, lemma_pow256_8, put_be, put_bytes, read_be,
};
use crate::address_text::AddressTexts;
use crate::endpoints::add_endpoint;
use crate::net::{endpoint_at, Endpoint, Ip};
use crate::number_laws::lemma_le_index;
use crate::text::{parts, split, trim, trimmed, views};
use vstd::arithmetic::power::pow;
use vstd::prelude::*;

verus! {

pub const MAGIC_COOKIE: u32 = 0x2112_A442;
pub const BINDING_REQUEST: u16 = 0x0001;
pub const BINDING_RESPONSE: u16 = 0x0101;
pub const XOR_MAPPED_ADDRESS: u16 = 0x0020;

/// The entries of a list with commas: the parts without white space around them, the empty ones
/// left out.
pub open spec fn listed(ps: Seq<Seq<char>>) -> Seq<Seq<char>>
    decreases ps.len(),
{
    if ps.len() == 0 {
        Seq::empty()
    } else if trimmed(ps.last()).len() == 0 {
        listed(ps.drop_last())
    } else {
        listed(ps.drop_last()).push(trimmed(ps.last()))
    }
}

/// Why a list of servers is refused.
#[derive(Debug)]
pub enum ServersError {
    /// An entry is no address with a port; its text is given.
    BadEntry(String),
    /// There is no entry.
    Empty,
}

/// Why a list of servers is refused.
pub enum ServersModel {
    BadEntry(Seq<char>),
    Empty,
}

impl View for ServersError {
    type V = ServersModel;

    open spec fn view(&self) -> ServersModel {
        match self {
            ServersError::BadEntry(entry) => ServersModel::BadEntry(entry@),
            ServersError::Empty => ServersModel::Empty,
        }
    }
}

/// An error as text.
pub open spec fn servers_text(e: ServersModel) -> Seq<char> {
    match e {
        ServersModel::BadEntry(entry) => "STUN: «"@ + entry + "» — ожидается ip:порт"@,
        ServersModel::Empty =>
            "STUN: не указан ни один сервер (ожидается ip:порт[,ip:порт])"@,
    }
}

impl ServersError {
    /// The error as text.
    pub fn text(&self) -> (text: String)
        ensures
            text@ == servers_text(self@),
    {
        match self {
            ServersError::BadEntry(entry) => {
                let mut text: String = String::new();
                text.append("STUN: «");
                text.append(entry.as_str());
                text.append("» — ожидается ip:порт");
                assert(text@ =~= servers_text(self@));
                text
            },
            ServersError::Empty =>
                "STUN: не указан ни один сервер (ожидается ip:порт[,ip:порт])".to_owned(),
        }
    }
}

/// The servers that the entries denote, without repetitions, or the first entry that denotes
/// none.
pub open spec fn servers_in(entries: Seq<Seq<char>>, texts: AddressTexts) -> Result<
    Seq<Endpoint>,
    Seq<char>,
>
    decreases entries.len(),
{
    if entries.len() == 0 {
        Ok(Seq::empty())
    } else {
        match servers_in(entries.drop_last(), texts) {
            Ok(servers) => match texts.denotes(entries.last()) {
                Some(server) => if servers.contains(server) {
                    Ok(servers)
                } else {
                    Ok(servers.push(server))
                },
                None => Err(entries.last()),
            },
            Err(entry) => Err(entry),
        }
    }
}

/// What a list of servers says.
pub open spec fn list_says(list: Seq<char>, texts: AddressTexts) -> Result<
    Seq<Endpoint>,
    ServersModel,
> {
    match servers_in(listed(parts(list, ',')), texts) {
        Ok(servers) => if servers.len() == 0 {
            Err(ServersModel::Empty)
        } else {
            Ok(servers)
        },
        Err(entry) => Err(ServersModel::BadEntry(entry)),
    }
}

/// Reads a list of servers: addresses with ports and commas between them, with white space
/// around them. At least one is needed, and repetitions are dropped.
pub fn parse_servers(list: &str, texts: &AddressTexts) -> (servers: Result<
    Vec<Endpoint>,
    ServersError,
>)
    ensures
        match servers {
            Ok(s) => list_says(list@, *texts) == Ok::<Seq<Endpoint>, ServersModel>(s@),
            Err(e) => list_says(list@, *texts) == Err::<Seq<Endpoint>, ServersModel>(e@),
        },
{
    let ps: Vec<&str> = split(list, ',');
    let mut servers: Vec<Endpoint> = Vec::new();
    let mut i: usize = 0;
    assert(views(ps@).take(0) =~= Seq::<Seq<char>>::empty());
    assert(servers@ =~= Seq::<Endpoint>::empty());
    while i < ps.len()
        invariant
            i <= ps@.len(),
            views(ps@) == parts(list@, ','),
            servers_in(listed(views(ps@).take(i as int)), *texts) == Ok::<Seq<Endpoint>, Seq<char>>(
                servers@,
            ),
        decreases ps@.len() - i,
    {
        let entry: &str = trim(ps[i]);
        proof {
            let all = views(ps@);
            assert(all.take(i + 1).drop_last() =~= all.take(i as int));
            assert(all.take(i + 1).last() == ps@[i as int]@);
            let before = listed(all.take(i as int));
            assert(before.push(entry@).drop_last() =~= before);
            assert(before.push(entry@).last() == entry@);
        }
        if entry.unicode_len() > 0 {
            match texts.endpoint(entry) {
                Some(server) => {
                    add_endpoint(&mut servers, server);
                },
                None => {
                    proof {
                        lemma_bad_entry_stays(views(ps@), i + 1, *texts);
                    }
                    return Err(ServersError::BadEntry(entry.to_owned()));
                },
            }
        }
        i += 1;
    }
    assert(views(ps@).take(ps@.len() as int) =~= views(ps@));
    if servers.len() == 0 {
        return Err(ServersError::Empty);
    }
    Ok(servers)
}

proof fn lemma_bad_entry_stays(ps: Seq<Seq<char>>, n: int, texts: AddressTexts)
    requires
        0 <= n <= ps.len(),
        servers_in(listed(ps.take(n)), texts) is Err,
    ensures
        servers_in(listed(ps), texts) == servers_in(listed(ps.take(n)), texts),
    decreases ps.len() - n,
{
    if n == ps.len() {
        assert(ps.take(n) =~= ps);
    } else {
        assert(ps.take(n + 1).drop_last() =~= ps.take(n));
        let before = listed(ps.take(n));
        let entry = trimmed(ps.take(n + 1).last());
        assert(before.push(entry).drop_last() =~= before);
        lemma_bad_entry_stays(ps, n + 1, texts);
    }
}

/// No server of a list is listed twice.
pub proof fn law_servers_are_not_repeated(list: Seq<char>, texts: AddressTexts)
    ensures
        list_says(list, texts) matches Ok(servers) ==> servers.no_duplicates() && servers.len() > 0,
{
    lemma_servers_differ(listed(parts(list, ',')), texts);
}

proof fn lemma_servers_differ(entries: Seq<Seq<char>>, texts: AddressTexts)
    ensures
        servers_in(entries, texts) matches Ok(servers) ==> servers.no_duplicates(),
    decreases entries.len(),
{
    if entries.len() > 0 {
        lemma_servers_differ(entries.drop_last(), texts);
        if let Ok(servers) = servers_in(entries.drop_last(), texts) {
            if let Some(server) = texts.denotes(entries.last()) {
                if !servers.contains(server) {
                    let after = servers.push(server);
                    assert forall|i: int, j: int| 0 <= i < j < after.len() implies after[i]
                        != after[j] by {
                        if j == servers.len() {
                            assert(servers.contains(servers[i]));
                        }
                    }
                }
            }
        }
    }
}

/// What several servers show of the NAT in front of one socket.
#[derive(Clone, Copy, Debug, PartialEq, Eq, Structural)]
pub enum NatHint {
    /// The port depends on the destination.
    PortDepends,
    /// The address depends on the route to the server.
    AddressDepends,
}

impl NatHint {
    /// The words of the hint.
    pub open spec fn words(self) -> Seq<char> {
        match self {
            NatHint::PortDepends =>
                "порт зависит от адресата (вероятно, симметричный NAT): пробив может не сработать"@,
            NatHint::AddressDepends =>
                "внешний адрес зависит от маршрута до сервера: пир будет стучаться по всем"@,
        }
    }

    /// The hint as text.
    pub fn text(self) -> (text: &'static str)
        ensures
            text@ == self.words(),
    {
        match self {
            NatHint::PortDepends =>
                "порт зависит от адресата (вероятно, симметричный NAT): пробив может не сработать",
            NatHint::AddressDepends =>
                "внешний адрес зависит от маршрута до сервера: пир будет стучаться по всем",
        }
    }

    /// The hint as it is reported: with what each server (first of each pair) saw (second), the
    /// addresses in the form in which they are shown.
    pub fn report(self, shown: &Vec<(String, String)>) -> (text: String)
        ensures
            text@ == self.words() + " ("@ + seen_text(shown@) + ")"@,
    {
        let mut text: String = self.text().to_owned();
        text.append(" (");
        let ghost head = text@;
        let mut i: usize = 0;
        assert(shown@.take(0) =~= Seq::<(String, String)>::empty());
        assert(text@ =~= head + seen_text(shown@.take(0)));
        while i < shown.len()
            invariant
                i <= shown@.len(),
                text@ == head + seen_text(shown@.take(i as int)),
            decreases shown@.len() - i,
        {
            proof {
                assert(shown@.take(i + 1).drop_last() =~= shown@.take(i as int));
                assert(shown@.take(i + 1).last() == shown@[i as int]);
            }
            if i > 0 {
                text.append(", ");
            }
            text.append(shown[i].0.as_str());
            text.append(" -> ");
            text.append(shown[i].1.as_str());
            i += 1;
            assert(text@ =~= head + seen_text(shown@.take(i as int)));
        }
        assert(shown@.take(shown@.len() as int) =~= shown@);
        text.append(")");
        text
    }
}

/// What each server saw, as text: `server -> address`, with commas between.
pub open spec fn seen_text(shown: Seq<(String, String)>) -> Seq<char>
    decreases shown.len(),
{
    if shown.len() == 0 {
        Seq::empty()
    } else {
        let before = seen_text(shown.drop_last());
        let gap = if shown.len() > 1 {
            ", "@
        } else {
            Seq::empty()
        };
        before + gap + shown.last().0@ + " -> "@ + shown.last().1@
    }
}

/// What the servers (first of each pair) show by the addresses that they saw (second): nothing,
/// where they agree or at most one answered.
pub fn describe_nat(observed: &[(Endpoint, Endpoint)]) -> (hint: Option<NatHint>)
    ensures
        hint is None <==> forall|i: int|
            0 <= i < observed@.len() ==> (#[trigger] observed@[i]).1 == observed@[0].1,
        hint == Some(NatHint::PortDepends) <==> {
            &&& exists|i: int|
                0 <= i < observed@.len() && (#[trigger] observed@[i]).1 != observed@[0].1
            &&& forall|i: int|
                0 <= i < observed@.len() ==> (#[trigger] observed@[i]).1.ip == observed@[0].1.ip
        },
{
    if observed.len() == 0 {
        return None;
    }
    let first = observed[0].1;
    let mut differ = false;
    let mut same_ip = true;
    let mut i: usize = 0;
    while i < observed.len()
        invariant
            i <= observed@.len(),
            observed@.len() > 0,
            first == observed@[0].1,
            differ <==> exists|k: int| 0 <= k < i && (#[trigger] observed@[k]).1 != first,
            same_ip <==> forall|k: int| 0 <= k < i ==> (#[trigger] observed@[k]).1.ip == first.ip,
        decreases observed@.len() - i,
    {
        if observed[i].1 != first {
            assert(observed@[i as int].1 != first);
            differ = true;
            if observed[i].1.ip != first.ip {
                same_ip = false;
            }
        }
        i += 1;
    }
    if !differ {
        None
    } else if same_ip {
        Some(NatHint::PortDepends)
    } else {
        Some(NatHint::AddressDepends)
    }
}

/// A Binding Request without attributes.
pub open spec fn request_bytes(txn_id: Seq<u8>) -> Seq<u8> {
    be_bytes(BINDING_REQUEST as nat, 2) + be_bytes(0, 2) + be_bytes(MAGIC_COOKIE as nat, 4)
        + txn_id
}

/// Builds a Binding Request.
pub fn binding_request(txn_id: &[u8; 12]) -> (request: Vec<u8>)
    ensures
        request@ == request_bytes(txn_id@),
        request@.len() == 20,
{
    let mut request: Vec<u8> = Vec::new();
    put_be(&mut request, BINDING_REQUEST as u128, 2);
    put_be(&mut request, 0, 2);
    put_be(&mut request, MAGIC_COOKIE as u128, 4);
    put_bytes(&mut request, txn_id.as_slice());
    proof {
        lemma_be_bytes(BINDING_REQUEST as nat, 2);
        lemma_be_bytes(0, 2);
        lemma_be_bytes(MAGIC_COOKIE as nat, 4);
        assert(request@ =~= request_bytes(txn_id@));
    }
    request
}

/// The identifier of a transaction from a number (the time): its lowest twelve bytes, least
/// significant first.
pub fn transaction_id(seed: u128) -> (id: [u8; 12])
    ensures
        id@ == le_bytes(seed as nat, 12),
{
    let mut id: [u8; 12] = [0u8; 12];
    let mut rest: u128 = seed;
    let mut i: usize = 0;
    assert(id@.take(0) + le_bytes(rest as nat, 12) =~= le_bytes(seed as nat, 12));
    while i < 12
        invariant
            i <= 12,
            id@.take(i as int) + le_bytes(rest as nat, (12 - i) as nat) == le_bytes(
                seed as nat,
                12,
            ),
        decreases 12 - i,
    {
        let ghost before = id@;
        let ghost tail = le_bytes(rest as nat, (12 - i) as nat);
        id[i] = (rest % 256) as u8;
        rest = rest / 256;
        i += 1;
        proof {
            let next = le_bytes(rest as nat, (12 - i) as nat);
            assert(tail =~= seq![id@[i - 1]] + next);
            assert(id@.take(i as int) =~= before.take(i - 1).push(id@[i - 1]));
            assert(id@.take(i as int) + next =~= before.take(i - 1) + tail);
        }
    }
    proof {
        assert(le_bytes(rest as nat, 0) =~= Seq::<u8>::empty());
        assert(id@.take(12) + le_bytes(rest as nat, 0) =~= id@);
    }
    id
}

/// Why a packet is no answer to our request.
#[derive(Clone, Copy, Debug, PartialEq, Eq, Structural)]
pub enum StunError {
    /// Shorter than a header.
    Short,
    /// No Binding Response.
    NotResponse,
    /// Another transaction.
    Transaction,
    /// No XOR-MAPPED-ADDRESS attribute.
    NoAddress,
    /// The attribute is too short.
    ShortAddress,
    /// The attribute does not hold an IPv4 address.
    NotIpv4,
}

/// The endpoint in the value of an XOR-MAPPED-ADDRESS attribute.
pub open spec fn mapped_in(value: Seq<u8>) -> Result<Endpoint, StunError> {
    if value.len() < 8 {
        Err(StunError::ShortAddress)
    } else if value[1] != 0x01 {
        Err(StunError::NotIpv4)
    } else {
        Ok(
            endpoint_at(
                Ip::V4(be_value(value.subrange(4, 8)) as u32 ^ MAGIC_COOKIE),
                (be_value(value.subrange(2, 4)) as u16) ^ 0x2112u16,
            ),
        )
    }
}

/// A length rounded up to a multiple of four.
pub open spec fn padded(len: int) -> int {
    (len + 3) / 4 * 4
}

/// The endpoint in the attributes from `offset` on: in the first XOR-MAPPED-ADDRESS, if one
/// comes before an attribute that is cut off.
pub open spec fn attributes_say(data: Seq<u8>, offset: int) -> Result<Endpoint, StunError>
    decreases
            if offset <= data.len() {
                data.len() - offset
            } else {
                0
            },
{
    if offset < 0 || offset + 4 > data.len() {
        Err(StunError::NoAddress)
    } else {
        let kind = be16(data[offset], data[offset + 1]);
        let len = be16(data[offset + 2], data[offset + 3]) as int;
        if offset + 4 + len > data.len() {
            Err(StunError::NoAddress)
        } else if kind == XOR_MAPPED_ADDRESS {
            mapped_in(data.subrange(offset + 4, offset + 4 + len))
        } else {
            attributes_say(data, offset + 4 + padded(len))
        }
    }
}

/// The endpoint that a Binding Response reports.
pub open spec fn response_says(data: Seq<u8>, txn_id: Seq<u8>) -> Result<Endpoint, StunError> {
    if data.len() < 20 {
        Err(StunError::Short)
    } else if be16(data[0], data[1]) != BINDING_RESPONSE {
        Err(StunError::NotResponse)
    } else if data.subrange(8, 20) != txn_id {
        Err(StunError::Transaction)
    } else {
        attributes_say(data, 20)
    }
}

fn parse_xor_mapped_address(data: &[u8], from: usize, to: usize) -> (mapped: Result<
    Endpoint,
    StunError,
>)
    requires
        from <= to <= data@.len(),
    ensures
        mapped == mapped_in(data@.subrange(from as int, to as int)),
{
    let ghost value = data@.subrange(from as int, to as int);
    if to - from < 8 {
        return Err(StunError::ShortAddress);
    }
    if data[from + 1] != 0x01 {
        return Err(StunError::NotIpv4);
    }
    let xor_port: u16 = read_be(data, from + 2, 2) as u16;
    let xor_ip: u32 = read_be(data, from + 4, 4) as u32;
    proof {
        assert(value.subrange(2, 4) =~= data@.subrange(from + 2, from + 4));
        assert(value.subrange(4, 8) =~= data@.subrange(from + 4, from + 8));
    }
    Ok(Endpoint::new(Ip::V4(xor_ip ^ MAGIC_COOKIE), xor_port ^ 0x2112u16))
}

fn read_pair(data: &[u8], at: usize) -> (x: u16)
    requires
        at + 2 <= data@.len(),
    ensures
        x == be16(data@[at as int], data@[at + 1]),
{
    let size: usize = data.len();
    data[at] as u16 * 256 + data[at + 1] as u16
}

fn same_transaction(data: &[u8], txn_id: &[u8; 12]) -> (same: bool)
    requires
        data@.len() >= 20,
    ensures
        same == (data@.subrange(8, 20) == txn_id@),
{
    let mut i: usize = 0;
    while i < 12
        invariant
            i <= 12,
            data@.len() >= 20,
            forall|k: int| 0 <= k < i ==> data@[8 + k] == txn_id@[k],
        decreases 12 - i,
    {
        if data[8 + i] != txn_id[i] {
            assert(data@.subrange(8, 20)[i as int] != txn_id@[i as int]);
            return false;
        }
        i += 1;
    }
    assert(data@.subrange(8, 20) =~= txn_id@);
    true
}

/// Reads a Binding Response to our request.
pub fn parse_binding_response(data: &[u8], txn_id: &[u8; 12]) -> (mapped: Result<
    Endpoint,
    StunError,
>)
    ensures
        mapped == response_says(data@, txn_id@),
{
    let size: usize = data.len();
    if size < 20 {
        return Err(StunError::Short);
    }
    if read_pair(data, 0) != BINDING_RESPONSE {
        return Err(StunError::NotResponse);
    }
    if !same_transaction(data, txn_id) {
        return Err(StunError::Transaction);
    }
    let mut offset: usize = 20;
    while size - offset >= 4
        invariant
            20 <= offset <= size,
            size == data@.len(),
            response_says(data@, txn_id@) == attributes_say(data@, offset as int),
        decreases size - offset,
    {
        let kind: u16 = read_pair(data, offset);
        let len: usize = read_pair(data, offset + 2) as usize;
        let start: usize = offset + 4;
        if len > size - start {
            return Err(StunError::NoAddress);
        }
        if kind == XOR_MAPPED_ADDRESS {
            return parse_xor_mapped_address(data, start, start + len);
        }
        let whole: usize = (len + 3) / 4 * 4;
        if whole > size - start {
            assert(attributes_say(data@, start + whole) == Err::<Endpoint, StunError>(
                StunError::NoAddress,
            ));
            return Err(StunError::NoAddress);
        }
        offset = start + whole;
    }
    Err(StunError::NoAddress)
}

/// The answer among whatever comes to the socket: a Binding Response to our request from the
/// server that was asked. Anything else is passed over.
pub fn reply(data: &[u8], from: Endpoint, server: Endpoint, txn_id: &[u8; 12]) -> (mapped: Option<
    Endpoint,
>)
    ensures
        mapped == if from == server && response_says(data@, txn_id@) is Ok {
            Some(response_says(data@, txn_id@)->Ok_0)
        } else {
            None
        },
{
    if from != server {
        return None;
    }
    match parse_binding_response(data, txn_id) {
        Ok(mapped) => Some(mapped),
        Err(_) => None,
    }
}

/// A Binding Response with one attribute: the endpoint that the server saw, XORed with the
/// cookie.
pub open spec fn response_bytes(txn_id: Seq<u8>, ip: u32, port: u16) -> Seq<u8> {
    be_bytes(BINDING_RESPONSE as nat, 2) + be_bytes(12, 2) + be_bytes(MAGIC_COOKIE as nat, 4)
        + txn_id + be_bytes(XOR_MAPPED_ADDRESS as nat, 2) + be_bytes(8, 2) + seq![0u8, 1u8]
        + be_bytes((port ^ 0x2112u16) as nat, 2) + be_bytes((ip ^ MAGIC_COOKIE) as nat, 4)
}

proof fn lemma_pair(x: nat)
    requires
        x < 0x1_0000,
    ensures
        be_bytes(x, 2).len() == 2,
        be16(be_bytes(x, 2)[0], be_bytes(x, 2)[1]) == x,
{
    reveal_with_fuel(be_bytes, 3);
    assert(be_bytes(x, 2) =~= seq![(x / 256 % 256) as u8, (x % 256) as u8]);
}

/// From the response of a server to our request comes the endpoint that the server saw.
pub proof fn law_response_is_read_back(txn_id: Seq<u8>, ip: u32, port: u16)
    requires
        txn_id.len() == 12,
    ensures
        response_says(response_bytes(txn_id, ip, port), txn_id) == Ok::<Endpoint, StunError>(
            endpoint_at(Ip::V4(ip), port),
        ),
{
    let data = response_bytes(txn_id, ip, port);
    let (xor_port, xor_ip) = (port ^ 0x2112u16, ip ^ MAGIC_COOKIE);
    lemma_pair(BINDING_RESPONSE as nat);
    lemma_pair(12);
    lemma_pair(XOR_MAPPED_ADDRESS as nat);
    lemma_pair(8);
    lemma_be_bytes(MAGIC_COOKIE as nat, 4);
    lemma_be_bytes(xor_port as nat, 2);
    lemma_be_bytes(xor_ip as nat, 4);
    lemma_pow256_8();
    assert(data.len() == 32);
    assert(data.subrange(0, 2) =~= be_bytes(BINDING_RESPONSE as nat, 2));
    assert(data[0] == data.subrange(0, 2)[0] && data[1] == data.subrange(0, 2)[1]);
    assert(data.subrange(8, 20) =~= txn_id);
    assert(data.subrange(20, 22) =~= be_bytes(XOR_MAPPED_ADDRESS as nat, 2));
    assert(data[20] == data.subrange(20, 22)[0] && data[21] == data.subrange(20, 22)[1]);
    assert(data.subrange(22, 24) =~= be_bytes(8, 2));
    assert(data[22] == data.subrange(22, 24)[0] && data[23] == data.subrange(22, 24)[1]);
    let value = data.subrange(24, 32);
    assert(value[1] == 1);
    assert(value.subrange(2, 4) =~= be_bytes(xor_port as nat, 2));
    assert(value.subrange(4, 8) =~= be_bytes(xor_ip as nat, 4));
    assert((port ^ 0x2112u16) ^ 0x2112u16 == port) by (bit_vector);
    assert((ip ^ 0x2112_A442u32) ^ 0x2112_A442u32 == ip) by (bit_vector);
    assert(attributes_say(data, 20) == mapped_in(value));
}

/// The number of two bytes at a place.
pub open spec fn pair_at(data: Seq<u8>, at: int) -> int {
    data[at] * 0x100 + data[at + 1]
}

/// The number of four bytes at a place.
pub open spec fn quad_at(data: Seq<u8>, at: int) -> int {
    data[at] * 0x100_0000 + data[at + 1] * 0x1_0000 + data[at + 2] * 0x100 + data[at + 3]
}

proof fn lemma_pair_value(data: Seq<u8>, at: int)
    requires
        0 <= at,
        at + 2 <= data.len(),
    ensures
        be_value(data.subrange(at, at + 2)) == pair_at(data, at),
{
    let s = data.subrange(at, at + 2);
    reveal_with_fuel(be_value, 3);
    assert(s.drop_last().drop_last().len() == 0);
    assert(s.drop_last().last() == data[at]);
    assert(s.last() == data[at + 1]);
}

proof fn lemma_quad_value(data: Seq<u8>, at: int)
    requires
        0 <= at,
        at + 4 <= data.len(),
    ensures
        be_value(data.subrange(at, at + 4)) == quad_at(data, at),
        quad_at(data, at) <= u32::MAX,
{
    let s = data.subrange(at, at + 4);
    reveal_with_fuel(be_value, 5);
    assert(s.drop_last().drop_last().drop_last().drop_last().len() == 0);
    assert(s.drop_last().drop_last().drop_last().last() == data[at]);
    assert(s.drop_last().drop_last().last() == data[at + 1]);
    assert(s.drop_last().last() == data[at + 2]);
    assert(s.last() == data[at + 3]);
}

/// A request is twenty bytes: its type, no attributes, the magic cookie and the transaction.
pub proof fn law_a_request_is_a_bare_header(txn_id: &[u8; 12], request: Vec<u8>)
    requires
        call_ensures(binding_request, (txn_id,), request),
    ensures
        request@.len() == 20,
        request@.take(8) == seq![0u8, 1, 0, 0, 0x21, 0x12, 0xa4, 0x42],
        request@.skip(8) == txn_id@,
{
    reveal_with_fuel(be_bytes, 5);
    assert(be_bytes(1, 2) =~= seq![0u8, 1]);
    assert(be_bytes(0, 2) =~= seq![0u8, 0]);
    assert(be_bytes(0x2112_a442, 4) =~= seq![0x21u8, 0x12, 0xa4, 0x42]);
    assert(request@.take(8) =~= seq![0u8, 1, 0, 0, 0x21, 0x12, 0xa4, 0x42]);
    assert(request@.skip(8) =~= txn_id@);
}

/// A response counts only if it is one, to our own transaction: what is shorter than a header, of
/// another type or of another transaction is refused, each for its reason.
pub proof fn law_only_responses_to_our_request_count(
    data: &[u8],
    txn_id: &[u8; 12],
    mapped: Result<Endpoint, StunError>,
)
    requires
        call_ensures(parse_binding_response, (data, txn_id), mapped),
    ensures
        data@.len() < 20 <==> mapped == Err::<Endpoint, StunError>(StunError::Short),
        data@.len() >= 20 ==> {
            let response = data@[0] == 1 && data@[1] == 1;
            let ours = data@.subrange(8, 20) == txn_id@;
            &&& !response <==> mapped == Err::<Endpoint, StunError>(StunError::NotResponse)
            &&& response && !ours <==> mapped == Err::<Endpoint, StunError>(StunError::Transaction)
        },
{
    lemma_attributes_fail(data@, 20);
}

proof fn lemma_attributes_fail(data: Seq<u8>, offset: int)
    ensures
        attributes_say(data, offset) matches Err(e) ==> e is NoAddress || e is ShortAddress
            || e is NotIpv4,
    decreases
            if offset <= data.len() {
                data.len() - offset
            } else {
                0
            },
{
    if 0 <= offset && offset + 4 <= data.len() {
        let len = be16(data[offset + 2], data[offset + 3]) as int;
        if offset + 4 + len <= data.len() {
            lemma_attributes_fail(data, offset + 4 + padded(len));
        }
    }
}

/// The address that a server saw stands in the attribute of type 0x20, with the port and the
/// address masked by the magic cookie.
#[verifier::spinoff_prover]
#[verifier::rlimit(50)]
pub proof fn law_the_mapped_address_is_unmasked(data: Seq<u8>, at: int)
    requires
        0 <= at,
        at + 4 <= data.len(),
        at + 4 + pair_at(data, at + 2) <= data.len(),
    ensures
        ({
            let (kind, len) = (pair_at(data, at), pair_at(data, at + 2));
            &&& kind == 0x20 && len >= 8 && data[at + 5] == 1 ==> attributes_say(data, at) == Ok::<
                Endpoint,
                StunError,
            >(
                endpoint_at(
                    Ip::V4(quad_at(data, at + 8) as u32 ^ 0x2112_a442u32),
                    pair_at(data, at + 6) as u16 ^ 0x2112u16,
                ),
            )
            &&& kind == 0x20 && len < 8 ==> attributes_say(data, at) == Err::<Endpoint, StunError>(
                StunError::ShortAddress,
            )
            &&& kind == 0x20 && len >= 8 && data[at + 5] != 1 ==> attributes_say(data, at) == Err::<
                Endpoint,
                StunError,
            >(StunError::NotIpv4)
        }),
{
    let len = pair_at(data, at + 2);
    if len >= 8 {
        let value = data.subrange(at + 4, at + 4 + len);
        lemma_pair_value(data, at + 6);
        lemma_quad_value(data, at + 8);
        assert(value.subrange(2, 4) =~= data.subrange(at + 6, at + 8));
        assert(value.subrange(4, 8) =~= data.subrange(at + 8, at + 12));
        assert(value[1] == data[at + 5]);
    }
}

/// An attribute of another type is passed over, with what fills it up to a multiple of four bytes.
#[verifier::spinoff_prover]
pub proof fn law_other_attributes_are_passed_over(data: Seq<u8>, at: int)
    requires
        0 <= at,
        at + 4 <= data.len(),
        at + 4 + pair_at(data, at + 2) <= data.len(),
        pair_at(data, at) != 0x20,
    ensures
        pair_at(data, at + 2) % 4 == 0 ==> attributes_say(data, at) == attributes_say(
            data,
            at + 4 + pair_at(data, at + 2),
        ),
        pair_at(data, at + 2) % 4 != 0 ==> attributes_say(data, at) == attributes_say(
            data,
            at + 4 + pair_at(data, at + 2) + 4 - pair_at(data, at + 2) % 4,
        ),
{
}

/// An answer counts only if it comes from the server that was asked, and is then what it says.
pub proof fn law_only_the_server_that_was_asked_counts(
    data: &[u8],
    from: Endpoint,
    server: Endpoint,
    txn_id: &[u8; 12],
    mapped: Option<Endpoint>,
    parsed: Result<Endpoint, StunError>,
)
    requires
        call_ensures(reply, (data, from, server, txn_id), mapped),
        call_ensures(parse_binding_response, (data, txn_id), parsed),
    ensures
        from != server ==> mapped is None,
        from == server ==> (mapped is Some <==> parsed is Ok),
        mapped matches Some(e) ==> parsed == Ok::<Endpoint, StunError>(e),
{
}

/// The NAT is told by what the servers saw: nothing, where all saw the same; that the port depends
/// on the destination, where only ports differ; that the address does, where addresses differ.
pub proof fn law_differing_answers_tell_the_nat(
    observed: &[(Endpoint, Endpoint)],
    hint: Option<NatHint>,
    i: int,
)
    requires
        call_ensures(describe_nat, (observed,), hint),
        0 <= i < observed@.len(),
    ensures
        observed@[i].1 != observed@[0].1 ==> hint is Some,
        observed@[i].1.ip != observed@[0].1.ip ==> hint == Some(NatHint::AddressDepends),
        hint == Some(NatHint::PortDepends) ==> observed@[i].1.ip == observed@[0].1.ip,
        hint is None ==> observed@[i].1 == observed@[0].1,
        hint == Some(NatHint::AddressDepends) ==> exists|k: int|
            0 <= k < observed@.len() && (#[trigger] observed@[k]).1.ip != observed@[0].1.ip,
{
    if hint == Some(NatHint::AddressDepends) {
        if forall|k: int| 0 <= k < observed@.len() ==> (#[trigger] observed@[k]).1.ip
            == observed@[0].1.ip {
            assert(hint == Some(NatHint::PortDepends));
        }
    }
}

/// A list of servers is read entry by entry, between commas and without white space: every entry
/// that is not blank has to denote an address with a port, and the servers are exactly those
/// addresses. The first entry that denotes none is reported.
pub proof fn law_every_entry_of_the_list_is_a_server(
    list: &str,
    texts: &AddressTexts,
    servers: Result<Vec<Endpoint>, ServersError>,
    i: int,
    e: Endpoint,
)
    requires
        call_ensures(parse_servers, (list, texts), servers),
        0 <= i < parts(list@, ',').len(),
    ensures
        ({
            let ps = parts(list@, ',');
            &&& servers is Ok && trimmed(ps[i]).len() > 0 ==> texts.denotes(trimmed(ps[i])) is Some
                && servers->Ok_0@.contains(texts.denotes(trimmed(ps[i]))->0)
            &&& servers is Ok && servers->Ok_0@.contains(e) ==> exists|k: int|
                {
                    &&& 0 <= k < ps.len()
                    &&& trimmed(#[trigger] ps[k]).len() > 0
                    &&& texts.denotes(trimmed(ps[k])) == Some(e)
                }
            &&& servers matches Err(ServersError::BadEntry(entry)) ==> texts.denotes(entry@) is None
                && entry@.len() > 0
            &&& servers matches Err(ServersError::Empty) ==> trimmed(ps[i]).len() == 0
        }),
{
    let ps = parts(list@, ',');
    lemma_list(ps, *texts, i, e);
}

proof fn lemma_list(ps: Seq<Seq<char>>, texts: AddressTexts, i: int, e: Endpoint)
    requires
        0 <= i < ps.len() || ps.len() == 0,
    ensures
        match servers_in(listed(ps), texts) {
            Ok(servers) => {
                &&& ps.len() > 0 && trimmed(ps[i]).len() > 0 ==> texts.denotes(trimmed(ps[i])) is Some
                    && servers.contains(texts.denotes(trimmed(ps[i]))->0)
                &&& servers.contains(e) ==> exists|k: int|
                    {
                        &&& 0 <= k < ps.len()
                        &&& trimmed(#[trigger] ps[k]).len() > 0
                        &&& texts.denotes(trimmed(ps[k])) == Some(e)
                    }
            },
            Err(entry) => texts.denotes(entry) is None && entry.len() > 0,
        },
    decreases ps.len(),
{
    if ps.len() > 0 {
        let before = ps.drop_last();
        let j = if i < before.len() {
            i
        } else {
            0
        };
        lemma_list(before, texts, j, e);
        let last = trimmed(ps.last());
        assert(ps[ps.len() - 1] == ps.last());
        if last.len() > 0 {
            assert(listed(ps).drop_last() =~= listed(before));
        }
        if let Ok(servers) = servers_in(listed(ps), texts) {
            let s0 = servers_in(listed(before), texts)->Ok_0;
            assert forall|x: Endpoint| s0.contains(x) implies servers.contains(x) by {
                let k = choose|k: int| 0 <= k < s0.len() && s0[k] == x;
                assert(servers[k] == x);
            }
            if i < before.len() {
                assert(before[i] == ps[i]);
            } else if last.len() > 0 && !s0.contains(texts.denotes(last)->0) {
                assert(servers[servers.len() - 1] == texts.denotes(last)->0);
            }
            if servers.contains(e) {
                if s0.contains(e) {
                    let k = choose|k: int|
                        {
                            &&& 0 <= k < before.len()
                            &&& trimmed(#[trigger] before[k]).len() > 0
                            &&& texts.denotes(trimmed(before[k])) == Some(e)
                        };
                    assert(ps[k] == before[k]);
                } else {
                    let k = choose|k: int| 0 <= k < servers.len() && servers[k] == e;
                    if k < s0.len() {
                        assert(s0[k] == e);
                    }
                    assert(texts.denotes(trimmed(ps[ps.len() - 1])) == Some(e));
                }
            }
        }
    }
}

/// A request has twelve bytes of a seed, the lowest first.
pub proof fn law_a_transaction_has_twelve_bytes_of_its_seed(seed: u128, id: [u8; 12], i: nat)
    requires
        call_ensures(transaction_id, (seed,), id),
        i < 12,
    ensures
        id@[i as int] == seed as int / pow(256, i) % 256,
{
    lemma_le_index(seed as nat, 12, i);
}

/// A hint says what depends on what, and in a report what each server saw follows in brackets:
/// one more pair stands behind the others, after a comma.
pub proof fn law_hints_are_reported_with_what_was_seen(
    hint: NatHint,
    words: &'static str,
    shown: &Vec<(String, String)>,
    report: String,
    more: &Vec<(String, String)>,
    pair: (String, String),
    longer: String,
)
    requires
        call_ensures(NatHint::text, (hint,), words),
        call_ensures(NatHint::report, (hint, shown), report),
        call_ensures(NatHint::report, (hint, more), longer),
        more@ == shown@.push(pair),
    ensures
        hint is PortDepends ==> words@
            == "порт зависит от адресата (вероятно, симметричный NAT): пробив может не сработать"@,
        hint is AddressDepends ==> words@
            == "внешний адрес зависит от маршрута до сервера: пир будет стучаться по всем"@,
        shown@.len() == 0 ==> longer@ == words@ + " ("@ + pair.0@ + " -> "@ + pair.1@ + ")"@,
        shown@.len() > 0 ==> longer@ == report@.drop_last() + ", "@ + pair.0@ + " -> "@ + pair.1@
            + ")"@,
{
    assert(more@.drop_last() =~= shown@);
    reveal_strlit(")");
    assert(report@.drop_last() =~= words@ + " ("@ + seen_text(shown@));
    if shown@.len() == 0 {
        assert(longer@ =~= words@ + " ("@ + pair.0@ + " -> "@ + pair.1@ + ")"@);
    } else {
        assert(longer@ =~= report@.drop_last() + ", "@ + pair.0@ + " -> "@ + pair.1@ + ")"@);
    }
}

} // verus!
