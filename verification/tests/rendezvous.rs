//! Finding the peer, knocking, and what comes through a hole.

use home_proxy::address_text::{parse_endpoint, AddressTexts};
use home_proxy::auth::{PairSecret, AUTH_LEN};
use home_proxy::broker::{holds_mark, mqtt_login, BrokerAction, BrokerEvent, BrokerPoll};
use home_proxy::codec::encode;
use home_proxy::endpoints::{add_endpoint, holds_endpoint};
use home_proxy::guid::Guid;
use home_proxy::net::{ipv4, parse_ipv4, Endpoint, Ip};
use home_proxy::pool::Bank;
use home_proxy::port_utils::{sweep_bounds, zigzag_ports};
use home_proxy::punch::{
    handle_lite, InitMessage, InitPayload, Link, LinkEvent, LinkStat, LinkStats, LitePayload, PeerIdentity,
    PeerLinkStat, PeerMessage, PunchConfig, Received,
};
use home_proxy::rendezvous::{
    our_record, peer_session_from, peer_session_of, peer_wildcard, publication, slot_topic, PeerSession, RecordAddress,
    RecordError, Rendezvous,
};
use home_proxy::stun::{
    binding_request, describe_nat, parse_binding_response, parse_servers, reply, transaction_id, NatHint, StunError,
};
use home_proxy::sweep::sweep_order;
use home_proxy::vps::{
    bootstrap_session, parse_server, Draw, Feed, PortRange, PortSearch, ServerBootstrap, BIND_ATTEMPTS,
};

fn endpoint(text: &str) -> Endpoint {
    let (ip, port) = text.split_once(':').unwrap();
    Endpoint::new(Ip::V4(parse_ipv4(ip).unwrap()), port.parse().unwrap())
}

/// No texts but those of IPv4 addresses denote any.
fn ipv4_only() -> AddressTexts {
    AddressTexts { endpoints: Vec::new(), ips: Vec::new() }
}

#[test]
fn zigzag_fans_outward_from_center() {
    assert_eq!(zigzag_ports(100, 97, 103), vec![100, 101, 99, 102, 98, 103, 97]);
}

#[test]
fn zigzag_covers_asymmetric_bounds() {
    assert_eq!(zigzag_ports(100, 99, 104), vec![100, 101, 99, 102, 103, 104]);
}

#[test]
fn zigzag_clamps_at_port_bounds() {
    assert_eq!(zigzag_ports(1, 0, 3), vec![1, 2, 3]);
    assert_eq!(zigzag_ports(u16::MAX, u16::MAX - 2, u16::MAX), vec![u16::MAX, u16::MAX - 1, u16::MAX - 2]);
}

#[test]
fn zigzag_of_the_whole_range_tries_every_port_once() {
    let mut ports = zigzag_ports(30_000, 0, u16::MAX);
    assert_eq!(ports.len(), 65_535);
    ports.sort_unstable();
    ports.dedup();
    assert_eq!((ports.len(), ports[0]), (65_535, 1));
}

#[test]
fn sweep_bounds_span_both_ports_plus_margin() {
    assert_eq!(sweep_bounds(20101, 20102, 1000), (19101, 21102));
    assert_eq!(sweep_bounds(20102, 20101, 1000), (19101, 21102));
    assert_eq!(sweep_bounds(500, 600, 1000), (1, 1600));
    assert_eq!(sweep_bounds(65000, 65100, 1000), (64000, 65535));
}

#[test]
fn bounds_and_zigzag_together() {
    let (low, high) = sweep_bounds(20101, 20102, 2);
    assert_eq!(zigzag_ports(20102, low, high), vec![20102, 20103, 20101, 20104, 20100, 20099]);
}

#[test]
fn sweep_order_interleaves_candidates() {
    let a = endpoint("203.0.113.1:1000");
    let b = endpoint("198.51.100.1:2000");

    let single = sweep_order(&[a], 1000, 0);
    assert_eq!(single, vec![a]);

    let both = sweep_order(&[a, b], 1500, 2);
    assert_eq!(both[0], a, "the main address first");
    assert_eq!(both[1], b);
    assert!(both.iter().filter(|d| d.ip == a.ip).count() > 1, "every address has its own sweep");
    assert!(both.iter().filter(|d| d.ip == b.ip).count() > 1);
    assert_eq!(both.iter().filter(|d| **d == a).count(), 1, "no port twice at one address");
    assert!(sweep_order(&[], 1500, 2).is_empty(), "nothing to knock at");
}

#[test]
fn lists_of_endpoints_hold_each_once() {
    let mut list = Vec::new();
    add_endpoint(&mut list, endpoint("1.1.1.1:1"));
    add_endpoint(&mut list, endpoint("1.1.1.1:2"));
    add_endpoint(&mut list, endpoint("1.1.1.1:1"));
    assert_eq!(list.len(), 2);
    assert!(holds_endpoint(&list, endpoint("1.1.1.1:2")));
    assert!(!holds_endpoint(&list, endpoint("1.1.1.2:2")));
}

fn record(peer_id: Guid, session_id: Guid, slot: u32, key: Vec<u8>) -> Rendezvous {
    Rendezvous {
        public_ip: Some(Ip::V4(ipv4(203, 0, 113, 7))),
        public_port: 40000,
        peer_id: peer_id.text(),
        registered_at_unix_ms: 0,
        session_id: session_id.text(),
        slot,
        key,
        extra_endpoints: vec![],
    }
}

fn same_session(a: &PeerSession, b: &PeerSession) -> bool {
    (a.slot, a.session_id, a.addr, a.key, &a.extra) == (b.slot, b.session_id, b.addr, b.key, &b.extra)
}

#[test]
fn peer_session_decodes_from_own_payload() {
    let session_id = Guid::random();
    let peer_id = Guid::random();
    let got = peer_session_of(&record(peer_id, session_id, 3, vec![7; 16]), peer_id).unwrap().unwrap();
    let expected =
        PeerSession { slot: 3, session_id, addr: endpoint("203.0.113.7:40000"), key: [7; 16], extra: vec![] };
    assert!(same_session(&got, &expected));
    assert!(same_session(&got.copy(), &expected));
}

#[test]
fn key_of_wrong_length_is_rejected() {
    let peer_id = Guid::random();
    for len in [0, 15, 17] {
        let got = peer_session_of(&record(peer_id, Guid::random(), 0, vec![1; len]), peer_id);
        assert!(matches!(got, Err(RecordError::Key)), "length {len}");
    }
}

#[test]
fn every_fault_of_a_record_is_told() {
    let good = || record(Guid::random(), Guid::random(), 0, vec![0; 16]);
    let mut bad = good();
    bad.slot = 256;
    assert!(matches!(peer_session_from(&bad), Err(RecordError::Slot)));
    let mut bad = good();
    bad.session_id = "session".to_string();
    assert!(matches!(peer_session_from(&bad), Err(RecordError::Session)));
    let mut bad = good();
    bad.public_ip = None;
    assert!(matches!(peer_session_from(&bad), Err(RecordError::Address)));
    assert_eq!(RecordError::Address.text(), "некорректный public_ip");
    let mut odd = good();
    odd.public_port = 65_536 + 5;
    assert_eq!(peer_session_from(&odd).unwrap().addr.port, 5);
}

#[test]
fn mqtt_identity_matches_broker_acl() {
    let (me, peer) = (Guid::random(), Guid::random());
    let ca = b"-----BEGIN CERTIFICATE-----\n...\n-----END CERTIFICATE-----\n";

    let login = mqtt_login(ca, me, peer).unwrap();

    assert_eq!(login.client_id, me.text());
    assert_eq!(login.username, peer.text());
}

#[test]
fn non_pem_ca_is_rejected() {
    assert!(mqtt_login(b"not a cert", Guid::random(), Guid::random()).is_none());
    assert!(holds_mark(b"\xff\xfe mark", "mark"));
    assert!(!holds_mark(b"mar", "mark"));
    assert!(holds_mark(b"", ""));
}

#[test]
fn extra_endpoints_round_trip_and_become_candidates() {
    let endpoints = vec![
        endpoint("203.0.113.7:40000"),
        endpoint("198.51.100.2:41000"),
        endpoint("203.0.113.7:40000"),
    ];
    let record = our_record(Guid::random(), 3, Guid::random(), &endpoints, [9; 16], 0);
    assert_eq!(record.extra_endpoints.len(), 1);

    let session = peer_session_from(&record).unwrap();
    assert_eq!(session.addr, endpoints[0]);
    assert_eq!(session.extra, vec![endpoints[1]]);
    assert_eq!(session.candidates(), vec![endpoints[0], endpoints[1]]);
}

#[test]
fn broken_extra_endpoints_are_skipped() {
    let mut record = our_record(Guid::random(), 0, Guid::random(), &[endpoint("203.0.113.7:1")], [0; 16], 0);
    let ip = Some(Ip::V4(ipv4(198, 51, 100, 2)));
    record.extra_endpoints = vec![
        RecordAddress { ip: None, port: 5 },
        RecordAddress { ip, port: 0 },
        RecordAddress { ip, port: 70000 },
        RecordAddress { ip, port: 6 },
    ];
    assert_eq!(peer_session_from(&record).unwrap().extra, vec![endpoint("198.51.100.2:6")]);
}

#[test]
fn peer_session_from_other_peer_is_ignored() {
    let got = peer_session_of(&record(Guid::random(), Guid::random(), 0, vec![0; 16]), Guid::random());
    assert!(got.unwrap().is_none());
}

#[test]
fn a_slot_without_addresses_is_not_published() {
    let id = Guid { value: 7 };
    assert!(publication(id, 0, id, &[], [0; 16], 5).is_none());
    let record = publication(id, 2, id, &[endpoint("1.2.3.4:5")], [0; 16], 5).unwrap();
    assert_eq!((record.slot, record.registered_at_unix_ms, record.public_port), (2, 5, 5));
    assert_eq!(our_record(id, 0, id, &[], [0; 16], 0).public_ip, Some(Ip::V4(0)));
    assert_eq!(slot_topic(id, 9), "home-proxy/rendezvous/00000000-0000-0000-0000-000000000007/9");
    assert_eq!(peer_wildcard(id), "home-proxy/rendezvous/00000000-0000-0000-0000-000000000007/+");
}

fn session(slot: u8, id: u128) -> PeerSession {
    PeerSession {
        slot,
        session_id: Guid { value: id },
        addr: endpoint("1.2.3.4:5"),
        key: [0; 16],
        extra: vec![],
    }
}

#[test]
fn the_broker_delivers_every_session_once_and_reconnects() {
    let mut poll = BrokerPoll::new();
    assert!(matches!(poll.step(BrokerEvent::Connected), BrokerAction::Nothing), "subscribed before");
    let deliver = |poll: &mut BrokerPoll, slot, id| poll.step(BrokerEvent::Record(Ok(Some(session(slot, id)))));
    assert!(matches!(deliver(&mut poll, 0, 1), BrokerAction::Deliver(s) if s.session_id.value == 1));
    assert!(matches!(deliver(&mut poll, 0, 1), BrokerAction::Nothing));
    assert!(matches!(deliver(&mut poll, 1, 1), BrokerAction::Deliver(_)), "another slot");
    assert!(matches!(poll.step(BrokerEvent::Lost), BrokerAction::Reconnect { report: true }));
    assert!(matches!(poll.step(BrokerEvent::Lost), BrokerAction::Reconnect { report: false }));
    assert!(matches!(poll.step(BrokerEvent::Connected), BrokerAction::Subscribe));
    assert!(matches!(deliver(&mut poll, 0, 1), BrokerAction::Nothing), "also after a new connection");
    assert!(matches!(poll.step(BrokerEvent::Lost), BrokerAction::Reconnect { report: true }));
    assert!(matches!(poll.step(BrokerEvent::Record(Ok(None))), BrokerAction::Nothing));
    assert!(matches!(poll.step(BrokerEvent::Record(Err(RecordError::Key))), BrokerAction::Report(RecordError::Key)));
    assert!(matches!(poll.step(BrokerEvent::Other), BrokerAction::Nothing));
}

const COOKIE: u32 = 0x2112_A442;

/// A Binding Response with the address, as a STUN server builds it.
fn canned_response(txn_id: &[u8; 12], addr: Endpoint) -> Vec<u8> {
    let Ip::V4(ip) = addr.ip else { panic!("IPv4 only") };
    let xor_port = addr.port ^ (COOKIE >> 16) as u16;
    let xor_ip = ip ^ COOKIE;

    let mut attr_value = vec![0x00, 0x01];
    attr_value.extend_from_slice(&xor_port.to_be_bytes());
    attr_value.extend_from_slice(&xor_ip.to_be_bytes());

    let mut msg = Vec::new();
    msg.extend_from_slice(&0x0101u16.to_be_bytes());
    msg.extend_from_slice(&(attr_value.len() as u16 + 4).to_be_bytes());
    msg.extend_from_slice(&COOKIE.to_be_bytes());
    msg.extend_from_slice(txn_id);
    msg.extend_from_slice(&0x0020u16.to_be_bytes());
    msg.extend_from_slice(&(attr_value.len() as u16).to_be_bytes());
    msg.extend_from_slice(&attr_value);
    msg
}

#[test]
fn parses_xor_mapped_address() {
    let txn_id = [7u8; 12];
    let addr = endpoint("203.0.113.42:54321");
    let response = canned_response(&txn_id, addr);

    let parsed = parse_binding_response(&response, &txn_id).unwrap();
    assert_eq!(parsed, addr);
}

#[test]
fn rejects_mismatched_transaction_id() {
    let txn_id = [7u8; 12];
    let other_txn_id = [9u8; 12];
    let addr = endpoint("203.0.113.42:54321");
    let response = canned_response(&txn_id, addr);

    assert_eq!(parse_binding_response(&response, &other_txn_id), Err(StunError::Transaction));
}

#[test]
fn every_fault_of_a_stun_response_is_told() {
    let txn_id = [7u8; 12];
    let good = canned_response(&txn_id, endpoint("1.2.3.4:5"));
    assert_eq!(parse_binding_response(&good[..19], &txn_id), Err(StunError::Short));
    let mut request = good.clone();
    request[0] = 0;
    assert_eq!(parse_binding_response(&request, &txn_id), Err(StunError::NotResponse));
    assert_eq!(parse_binding_response(&good[..20], &txn_id), Err(StunError::NoAddress));
    assert_eq!(parse_binding_response(&good[..31], &txn_id), Err(StunError::NoAddress), "cut off");
    let mut short = good.clone();
    short[23] = 7;
    assert_eq!(parse_binding_response(&short, &txn_id), Err(StunError::ShortAddress));
    let mut v6 = good.clone();
    v6[25] = 2;
    assert_eq!(parse_binding_response(&v6, &txn_id), Err(StunError::NotIpv4));
    // An attribute of three bytes (padded to four) comes first.
    let mut later = good[..20].to_vec();
    later.extend_from_slice(&[0x80, 0x22, 0, 3, 1, 2, 3, 0]);
    later.extend_from_slice(&good[20..]);
    assert_eq!(parse_binding_response(&later, &txn_id), Ok(endpoint("1.2.3.4:5")));
}

#[test]
fn only_the_reply_of_the_asked_server_counts() {
    let txn_id = transaction_id(0x0f0e0d0c_0b0a0908_07060504_03020100);
    assert_eq!(txn_id, [0, 1, 2, 3, 4, 5, 6, 7, 8, 9, 10, 11]);
    let request = binding_request(&txn_id);
    assert_eq!(request[..8], [0, 1, 0, 0, 0x21, 0x12, 0xa4, 0x42]);
    assert_eq!(request[8..], txn_id);
    let (server, stranger) = (endpoint("9.9.9.9:3478"), endpoint("9.9.9.8:3478"));
    let mapped = endpoint("203.0.113.42:54321");
    let answer = canned_response(&txn_id, mapped);
    assert_eq!(reply(&answer, stranger, server, &txn_id), None);
    assert_eq!(reply(b"garbage that is not stun", server, server, &txn_id), None);
    assert_eq!(reply(&canned_response(&[9; 12], mapped), server, server, &txn_id), None);
    assert_eq!(reply(&answer, server, server, &txn_id), Some(mapped));
}

#[test]
fn server_list_accepts_one_or_many_and_drops_duplicates() {
    let known = ipv4_only();
    assert_eq!(parse_servers("1.2.3.4:3499", &known).unwrap().len(), 1);
    let two = parse_servers(" 1.2.3.4:3499 , 5.6.7.8:19302,1.2.3.4:3499", &known).unwrap();
    assert_eq!(two, vec![endpoint("1.2.3.4:3499"), endpoint("5.6.7.8:19302")]);
}

#[test]
fn servers_in_different_scopes_are_different_servers() {
    let at = |scope_id| Endpoint { scope_id, ..Endpoint::new(Ip::V6(0xfe80 << 112 | 1), 3478) };
    let texts = ["[fe80::1%1]:3478", "[fe80::1%2]:3478"];
    let known = AddressTexts {
        endpoints: texts.iter().zip([at(1), at(2)]).map(|(text, e)| (text.to_string(), e)).collect(),
        ips: Vec::new(),
    };
    let list = "[fe80::1%1]:3478,[fe80::1%2]:3478,[fe80::1%1]:3478";
    assert_eq!(parse_servers(list, &known).unwrap(), vec![at(1), at(2)]);
    // Knocks and records hold addresses and ports alone.
    assert_eq!(sweep_order(&[at(2)], 3478, 0), vec![at(0)]);
    let record = our_record(Guid { value: 1 }, 8, Guid { value: 2 }, &[at(1), at(2)], [0; 16], 0);
    assert_eq!(record.extra_endpoints.len(), 1, "the second one is another endpoint");
    let session = peer_session_from(&record).unwrap();
    assert_eq!((session.addr, session.candidates()), (at(0), vec![at(0)]));
}

#[test]
fn server_list_rejects_empty_and_bad_entries() {
    let known = ipv4_only();
    assert!(parse_servers("", &known).is_err());
    assert!(parse_servers(" , ", &known).is_err());
    let error = parse_servers("1.2.3.4:1,nope", &known).unwrap_err().text();
    assert!(error.contains("nope"), "{error}");
}

#[test]
fn nat_hint_only_when_servers_disagree() {
    let (a, b) = (endpoint("1.1.1.1:1"), endpoint("2.2.2.2:2"));
    assert_eq!(describe_nat(&[]), None);
    assert_eq!(describe_nat(&[(a, endpoint("9.9.9.9:40000"))]), None);
    assert_eq!(describe_nat(&[(a, endpoint("9.9.9.9:40000")), (b, endpoint("9.9.9.9:40000"))]), None);
    let port_differs = describe_nat(&[(a, endpoint("9.9.9.9:40000")), (b, endpoint("9.9.9.9:40001"))]).unwrap();
    assert_eq!(port_differs, NatHint::PortDepends);
    assert!(port_differs.text().contains("симметричный"));
    let ip_differs = describe_nat(&[(a, endpoint("9.9.9.9:40000")), (b, endpoint("8.8.8.8:40000"))]).unwrap();
    assert!(ip_differs.text().contains("маршрут"));
    let shown = vec![("a".to_string(), "b".to_string()), ("c".to_string(), "d".to_string())];
    assert!(ip_differs.report(&shown).ends_with("стучаться по всем (a -> b, c -> d)"));
}

#[test]
fn vps_server_address_with_or_without_port() {
    let known = ipv4_only();
    assert_eq!(parse_server("203.0.113.10", &known), Some(endpoint("203.0.113.10:40000")));
    assert_eq!(parse_server("203.0.113.10:41000", &known), Some(endpoint("203.0.113.10:41000")));
    assert_eq!(parse_server("vps", &known), None);
}

#[test]
fn main_server_address_with_or_without_port() {
    let known = ipv4_only();
    assert_eq!(parse_server("203.0.113.10", &known).unwrap(), endpoint("203.0.113.10:40000"));
    assert_eq!(parse_server("203.0.113.10:41000", &known).unwrap(), endpoint("203.0.113.10:41000"));
    assert!(parse_server("vps", &known).is_none());
}

#[test]
fn addresses_that_were_read_elsewhere_are_known() {
    let v6 = Endpoint::new(Ip::V6(1), 41000);
    let known = AddressTexts {
        endpoints: vec![("[::1]:41000".to_string(), v6)],
        ips: vec![("::1".to_string(), Ip::V6(1))],
    };
    assert_eq!(parse_server("[::1]:41000", &known), Some(v6));
    assert_eq!(parse_server(" ::1 ", &known), Some(Endpoint::new(Ip::V6(1), 40000)));
    assert_eq!(parse_server("::2", &known), None);
    assert_eq!(parse_servers("1.2.3.4:1,[::1]:41000", &known).unwrap(), vec![endpoint("1.2.3.4:1"), v6]);
    assert_eq!(parse_endpoint("1.2.3.4:00080"), Some(endpoint("1.2.3.4:80")));
    for bad in ["1.2.3.4", "1.2.3.4:", "1.2.3.4:+80", "1.2.3.4:65536", "1.2.3:80", " 1.2.3.4:80", "1.2.3.4:80:1"] {
        assert_eq!(parse_endpoint(bad), None, "{bad}");
    }
}

#[test]
fn only_signed_slot_zero_records_of_the_expected_peer_are_accepted() {
    let (me, peer) = (Guid::random(), Guid::random());
    let pair = PairSecret::new(me, peer);
    let at = [endpoint("203.0.113.10:41234")];
    // The bytes of a record stand for it in its signature.
    let bytes = b"record without a signature";
    let accepted = |signer: &PairSecret, id: Guid, slot: u8| {
        let record = our_record(id, slot, Guid::random(), &at, [0; 16], 0);
        bootstrap_session(&record, bytes, &signer.sign_rendezvous(bytes), &pair, peer)
    };
    assert_eq!(accepted(&PairSecret::new(peer, me), peer, 0).expect("the record of the peer").addr, at[0]);
    assert!(accepted(&pair, me, 0).is_none(), "our own record");
    assert!(accepted(&pair, peer, 3).is_none(), "not the bootstrap slot");
    let stranger = PairSecret::new(peer, Guid::random());
    assert!(accepted(&stranger, peer, 0).is_none(), "signed by somebody else");
    let record = our_record(peer, 0, Guid::random(), &at, [0; 16], 0);
    assert!(bootstrap_session(&record, b"other bytes", &pair.sign_rendezvous(bytes), &pair, peer).is_none());
}

#[test]
fn random_ports_stay_in_range_and_skip_the_excluded_one() {
    let range = PortRange { low: 45000, high: 45003 };
    let mut search = PortSearch::new(range, 45001).unwrap();
    let mut tried = 0;
    while let Some(port) = search.next() {
        assert!(range.contains(port) && port != 45001);
        tried += 1;
    }
    assert!(tried > 0 && tried <= BIND_ATTEMPTS);
    assert!(PortSearch::new(PortRange { low: 2, high: 1 }, 0).is_none(), "an empty range");
    let mut search = PortSearch::new(range, 45001).unwrap();
    assert_eq!(search.draw(6), Draw::Port(45002));
    assert_eq!(search.draw(5), Draw::Excluded);
    for _ in 2..BIND_ATTEMPTS {
        search.draw(0);
    }
    assert_eq!(search.draw(0), Draw::Exhausted);
}

#[test]
fn the_first_number_beside_the_excluded_port_decides() {
    let range = PortRange { low: 45000, high: 45003 };
    let mut search = PortSearch::new(range, 45001).unwrap();
    assert_eq!(search.first_of(&vec![1, 5, 7, 0]), Some(45003), "1 and 5 fall on the excluded port");
    assert_eq!(search.first_of(&vec![]), None);
    assert_eq!(search.first_of(&vec![9, 13]), None, "all of them do");
    assert_eq!(search.first_of(&vec![0]), Some(45000));
    let used = 3 + 2 + 1;
    assert_eq!(search.first_of(&vec![1; BIND_ATTEMPTS]), None, "it goes on until the attempts are used up");
    assert_eq!(search.first_of(&vec![0]), None);
    let mut search = PortSearch::new(range, 45001).unwrap();
    let mut numbers = vec![1; BIND_ATTEMPTS - 1];
    numbers.push(2);
    assert_eq!(search.first_of(&numbers), Some(45002), "the last attempt");
    assert_eq!(search.draw(2), Draw::Exhausted);
    let mut left = 0;
    let mut search = PortSearch::new(range, 45001).unwrap();
    search.first_of(&vec![1, 5, 7, 0]);
    search.first_of(&vec![9, 13]);
    search.first_of(&vec![0]);
    while search.draw(0) != Draw::Exhausted {
        left += 1;
    }
    assert_eq!(left, BIND_ATTEMPTS - used);
}

#[test]
fn every_draw_gives_a_port_where_none_of_the_range_is_excluded() {
    let range = PortRange { low: 45000, high: 45003 };
    let mut search = PortSearch::new(range, 44999).unwrap();
    for _ in 0..BIND_ATTEMPTS {
        assert!(range.contains(search.next().unwrap()));
    }
    assert_eq!(search.next(), None, "the attempts are used up");
    let mut one = PortSearch::new(PortRange { low: 7, high: 7 }, 7).unwrap();
    assert_eq!(one.next(), None, "the only port is excluded");
}

#[test]
fn bootstrap_keeps_the_record_and_feeds_a_session_once() {
    let mut bootstrap = ServerBootstrap::default();
    assert!(bootstrap.current().is_none());
    bootstrap.set(Some(record(Guid { value: 1 }, Guid { value: 2 }, 0, vec![3; 16])));
    let current = bootstrap.current().unwrap();
    assert_eq!((current.peer_id, current.key), (Guid { value: 1 }.text(), vec![3; 16]));
    bootstrap.set(None);
    assert!(bootstrap.current().is_none());
    let (a, b) = (Guid { value: 1 }, Guid { value: 2 });
    let mut feed = Feed::new();
    assert!(feed.is_new(a));
    feed.handed(a, false);
    assert!(feed.is_new(a), "slot 0 did not take it");
    feed.handed(a, true);
    assert!(!feed.is_new(a) && feed.is_new(b));
}

fn ends() -> (Link, Link) {
    let (a, b) = (Guid::random(), Guid::random());
    let (a_session, b_session) = (Guid::random(), Guid::random());
    let identity = |session_id, peer_session_id, my_peer_id, peer_id| PeerIdentity {
        session_id,
        peer_session_id,
        my_peer_id,
        peer_id,
        slot: 4,
        pair: PairSecret::new(my_peer_id, peer_id),
    };
    (Link::new(identity(a_session, b_session, a, b), 0), Link::new(identity(b_session, a_session, b, a), 0))
}

#[test]
fn both_ends_compute_the_same_identifier() {
    let (a, b) = ends();
    assert_eq!(a.identity.link_id().as_bytes(), b.identity.link_id().as_bytes());
}

#[test]
fn data_crosses_the_hole_and_moves_the_endpoint() {
    let mut bank = Bank::new();
    let (mut a, mut b) = ends();
    let (first, second) = (endpoint("1.1.1.1:1"), endpoint("2.2.2.2:2"));
    let mut out = [0u8; 1500];
    let n = a.data_packet(b"payload", &mut out).unwrap();
    let mut copy = out;
    match b.receive(&mut out[..n], first, 50, &mut bank) {
        Received::Event(LinkEvent::PeerData { slot: 4, payload }) => assert_eq!(payload, b"payload"),
        _ => panic!("no data"),
    }
    assert_eq!((b.state.endpoint, b.state.last_seen, b.state.stats.snapshot()), (Some(first), 50, (0, 1)));
    assert!(matches!(b.receive(&mut copy[..n], second, 60, &mut bank), Received::Dropped), "a repetition");
    assert_eq!((b.state.endpoint, b.state.last_seen), (Some(first), 50), "and nothing moves");
    let n = a.wrapped_packet(7, 200, Some(3), b"w", &mut out).unwrap();
    assert!(matches!(
        b.receive(&mut out[..n], second, 70, &mut bank),
        Received::Event(LinkEvent::PeerWrapped { slot: 4, seq: 7, client_id: 200, flow: Some(3), .. })
    ));
    assert_eq!(b.state.endpoint, Some(second), "the endpoint follows the peer");
    let n = a.ordered_packet(9, 8, b"o", &mut out).unwrap();
    assert!(matches!(
        b.receive(&mut out[..n], second, 80, &mut bank),
        Received::Event(LinkEvent::PeerOrdered { slot: 4, flow: 9, seq: 8, .. })
    ));
    assert!(a.data_packet(&[0; 1500], &mut out).is_none(), "too long");
    assert_eq!(bank.stats(), (3, 0), "one buffer for each packet");
}

#[test]
fn a_released_buffer_takes_the_next_packet() {
    let (mut a, mut b) = ends();
    let mut bank = Bank::new();
    let mut out = [0u8; 1500];
    for i in 0..5u8 {
        let n = a.data_packet(&[i; 9], &mut out).unwrap();
        match b.receive(&mut out[..n], endpoint("1.1.1.1:1"), 50, &mut bank) {
            Received::Event(LinkEvent::PeerData { payload, .. }) => {
                assert_eq!(payload, &[i; 9]);
                payload.release(&mut bank);
            }
            _ => panic!("no data"),
        }
    }
    assert_eq!(bank.stats(), (1, 1));
}

#[test]
fn foreign_packets_and_other_slots_change_nothing() {
    let mut bank = Bank::new();
    let (mut a, mut b) = ends();
    let (mut stranger, _) = ends();
    let from = endpoint("6.6.6.6:6");
    let mut out = [0u8; 1500];
    let n = stranger.data_packet(b"x", &mut out).unwrap();
    assert!(matches!(b.receive(&mut out[..n], from, 5, &mut bank), Received::Dropped));
    a.identity.slot = 5;
    let n = a.data_packet(b"x", &mut out).unwrap();
    assert!(matches!(b.receive(&mut out[..n], from, 5, &mut bank), Received::Dropped));
    assert!(matches!(b.receive(&mut [0u8; 7], from, 5, &mut bank), Received::Dropped), "shorter than a signature");
    assert_eq!((b.state.endpoint, b.state.stats.received), (None, 0));
    assert_eq!(bank.stats(), (0, 0), "no buffer is taken for what is dropped");
}

#[test]
fn knocks_are_answered_where_they_came_from() {
    let mut bank = Bank::new();
    let (mut a, mut b) = ends();
    let from = endpoint("3.3.3.3:3");
    // A message that is not one of the frequent ones is handed over to be read.
    let mut packet = encode(&vec![10, 1, 42], &mut a.send);
    assert!(matches!(b.receive(&mut packet, from, 5, &mut bank), Received::Message));
    assert_eq!(packet[AUTH_LEN..], [10, 1, 42]);
    assert_eq!(b.state.endpoint, None);
    let knock = || a.identity.init(InitPayload::Punch { target_port: 77 });
    match b.accept(PeerMessage::Init(knock()), from, 6, &mut bank) {
        Received::Answer(InitMessage { payload, from_peer_id, to_peer_id, slot, session_id }) => {
            assert_eq!(payload, Some(InitPayload::PunchAck { target_port: 77 }));
            assert_eq!((from_peer_id.len(), slot), (8, 4));
            assert_eq!(to_peer_id, knock().from_peer_id);
            assert_eq!(session_id, b.identity.session_id.text());
        }
        _ => panic!("no answer"),
    }
    assert_eq!((b.state.endpoint, b.state.last_seen), (Some(from), 6));
    let mut echo = knock();
    echo.from_peer_id = knock().to_peer_id;
    assert!(matches!(b.accept(PeerMessage::Init(echo), endpoint("4.4.4.4:4"), 7, &mut bank), Received::Dropped));
    let ack = a.identity.init(InitPayload::PunchAck { target_port: 1 });
    assert!(matches!(b.accept(PeerMessage::Init(ack), from, 8, &mut bank), Received::Noted));
    let keepalive = a.keepalive();
    assert!(matches!(keepalive, LitePayload::KeepAlive { seq: 0 }));
    assert!(matches!(a.keepalive(), LitePayload::KeepAlive { seq: 1 }));
    let lite = a.identity.lite(keepalive);
    assert!(matches!(b.accept(lite, from, 9, &mut bank), Received::Noted));
    let other_slot = PeerMessage::Lite { slot: 9, payload: None };
    assert!(matches!(b.accept(other_slot, endpoint("4.4.4.4:4"), 10, &mut bank), Received::Dropped));
    assert!(matches!(b.accept(PeerMessage::Empty, endpoint("4.4.4.4:4"), 10, &mut bank), Received::Dropped));
    assert_eq!(b.state.last_seen, 9);
    let delete = PeerMessage::Lite { slot: 4, payload: Some(LitePayload::DeleteLink { slot: 2 }) };
    assert!(matches!(b.accept(delete, from, 11, &mut bank), Received::Event(LinkEvent::DeleteLink { slot: 2 })));
}

#[test]
fn messages_through_a_hole_become_events() {
    let mut bank = Bank::new();
    let stat = |slot| LinkStat { slot, sent: 5, received: 6 };
    match handle_lite(Some(LitePayload::Stats(vec![stat(3), stat(256), stat(255)])), 0, &mut bank) {
        Some(LinkEvent::PeerStats(stats)) => assert_eq!(
            stats,
            vec![PeerLinkStat { slot: 3, sent: 5, received: 6 }, PeerLinkStat { slot: 255, sent: 5, received: 6 }]
        ),
        _ => panic!("no counters"),
    }
    assert!(handle_lite(Some(LitePayload::DeleteLink { slot: 256 }), 0, &mut bank).is_none());
    let data = |len| Some(LitePayload::Data { payload: vec![1; len] });
    assert!(matches!(handle_lite(data(1500), 6, &mut bank), Some(LinkEvent::PeerData { slot: 6, payload }) if payload.len() == 1500));
    assert!(handle_lite(data(1501), 6, &mut bank).is_none(), "larger than a buffer");
    let wrapped = LitePayload::Wrapped { seq: 1, client_id: 2, flow: None, payload: vec![] };
    assert!(matches!(
        handle_lite(Some(wrapped), 6, &mut bank),
        Some(LinkEvent::PeerWrapped { slot: 6, seq: 1, client_id: 2, flow: None, .. })
    ));
    let ordered = LitePayload::Ordered { flow: 3, seq: 4, payload: vec![9] };
    assert!(matches!(handle_lite(Some(ordered), 6, &mut bank), Some(LinkEvent::PeerOrdered { slot: 6, flow: 3, seq: 4, .. })));
    let offer = our_record(Guid { value: 1 }, 8, Guid { value: 2 }, &[], [0; 16], 0);
    assert!(matches!(
        handle_lite(Some(LitePayload::Rendezvous(offer)), 6, &mut bank),
        Some(LinkEvent::PeerRendezvous(r)) if r.slot == 8
    ));
    assert!(handle_lite(Some(LitePayload::KeepAlive { seq: 3 }), 6, &mut bank).is_none());
    assert!(handle_lite(None, 6, &mut bank).is_none());
}

#[test]
fn a_hole_is_lost_after_silence() {
    let (_, b) = ends();
    let timeout = PunchConfig::default().keepalive_timeout;
    assert_eq!(timeout, 15_000_000_000);
    let mut state = b.state;
    assert_eq!(state.patience(5, timeout), Some(timeout - 5));
    assert_eq!(state.patience(timeout, timeout), None);
    state.note_packet(endpoint("1.1.1.1:1"), timeout);
    assert_eq!(state.patience(timeout, timeout), Some(timeout));
    state.note_sent();
    assert_eq!(state.stats, LinkStats { sent: 1, received: 1 });
}
