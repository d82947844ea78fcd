//! IP packets, the bridges and the routes.

use std::collections::HashSet;

use home_proxy::client::{options, status, LocalBridge};
use home_proxy::guid::Guid;
use home_proxy::multilink::{Incoming, WrappedInfo, MAX_DATA_LEN};
use home_proxy::net::{ipv4, is_interface_name, parse_cidr, parse_ipv4, prefix_mask, push_ipv4, Endpoint, Ip};
use home_proxy::pool::Packet;
use home_proxy::relay::{count_routed, from_phone, route_by_client, route_to_phone, ClientRoute, DirectionStats, PhoneRoute};
use home_proxy::reorder::lateness::MILLI;
use home_proxy::server::{ClientKey, Clients};
use home_proxy::tun::bridge::{BridgeStats, Route, Sequencer, FLOW_BUCKETS};
use home_proxy::tun::checksum::checksum;
use home_proxy::tun::compose::{icmp_echo_reply, ipv4_udp};
use home_proxy::tun::hub::{Owner, Routes};
use home_proxy::tun::packet::{inspect, Proto};
use home_proxy::tun::tally::Tally;

fn ip(a: [u8; 4]) -> u32 {
    ipv4(a[0], a[1], a[2], a[3])
}

fn udp(src: [u8; 4], sp: u16, dst: [u8; 4], dp: u16, payload: &[u8]) -> Vec<u8> {
    let mut buf = [0u8; 1500];
    let n = ipv4_udp((ip(src), sp), (ip(dst), dp), payload, &mut buf).unwrap();
    buf[..n].to_vec()
}

fn icmp_echo(src: [u8; 4], dst: [u8; 4]) -> Vec<u8> {
    let mut p = vec![0x45, 0, 0, 36, 0, 1, 0, 0, 64, 1, 0, 0];
    p.extend_from_slice(&src);
    p.extend_from_slice(&dst);
    let sum = checksum(&p[..20]);
    p[10..12].copy_from_slice(&sum.to_be_bytes());
    let mut icmp = vec![8, 0, 0, 0, 0x12, 0x34, 0, 1, b'p', b'i', b'n', b'g', 1, 2, 3, 4];
    let s = checksum(&icmp);
    icmp[2..4].copy_from_slice(&s.to_be_bytes());
    p.extend_from_slice(&icmp);
    p
}

#[test]
fn ipv4_udp_is_parsed() {
    let p = udp([10, 0, 0, 1], 5000, [10, 0, 0, 2], 53, b"hello");
    let info = inspect(&p).unwrap();
    assert_eq!(info.version, 4);
    assert_eq!(info.proto, Proto::Udp);
    assert_eq!(info.src, Ip::V4(ipv4(10, 0, 0, 1)));
    assert_eq!(info.dst, Ip::V4(ipv4(10, 0, 0, 2)));
    assert_eq!(info.ports, Some((5000, 53)));
    assert_eq!(info.len, p.len());
    assert_eq!(checksum(&p[..20]), 0, "the checksum of the header is right");
}

#[test]
fn ipv4_tcp_and_fragments() {
    let mut p = udp([1, 2, 3, 4], 443, [5, 6, 7, 8], 50000, b"x");
    p[9] = 6;
    let info = inspect(&p).unwrap();
    assert_eq!((info.proto, info.ports), (Proto::Tcp, Some((443, 50000))));
    p[6] = 0x00;
    p[7] = 0x10;
    assert_eq!(inspect(&p).unwrap().ports, None);
}

#[test]
fn ipv6_tcp_is_parsed() {
    let mut p = vec![0u8; 60];
    p[0] = 0x60;
    p[4..6].copy_from_slice(&20u16.to_be_bytes());
    p[6] = 6;
    p[23] = 1;
    p[24..28].copy_from_slice(&[0x20, 0x01, 0x0d, 0xb8]);
    p[39] = 1;
    p[40..44].copy_from_slice(&[0x1f, 0x90, 0xc3, 0x50]);
    let info = inspect(&p).unwrap();
    assert_eq!(info.version, 6);
    assert_eq!(info.proto, Proto::Tcp);
    assert_eq!(info.src, Ip::V6(1));
    assert_eq!(info.dst, Ip::V6(0x2001_0db8_0000_0000_0000_0000_0000_0001));
    assert_eq!(info.ports, Some((8080, 50000)));
    assert_eq!(info.len, 60);
}

#[test]
fn garbage_is_not_an_ip_packet() {
    assert_eq!(inspect(&[]), None);
    assert_eq!(inspect(&[0x45, 0, 0]), None);
    assert_eq!(inspect(&[0x12; 64]), None);
    assert_eq!(inspect(&[0x60; 20]), None);
}

#[test]
fn flow_hash_separates_connections_and_keeps_one_stable() {
    let a = inspect(&udp([10, 0, 0, 1], 1000, [10, 0, 0, 2], 80, b"a")).unwrap();
    let a2 = inspect(&udp([10, 0, 0, 1], 1000, [10, 0, 0, 2], 80, b"another payload")).unwrap();
    let b = inspect(&udp([10, 0, 0, 1], 1001, [10, 0, 0, 2], 80, b"a")).unwrap();
    assert_eq!(a.flow_hash(), a2.flow_hash());
    assert_ne!(a.flow_hash(), b.flow_hash());
    let mut h = 0x811c_9dc5u32;
    for byte in [17u8, 10, 0, 0, 1, 10, 0, 0, 2, 0x03, 0xe8, 0, 80] {
        h = (h ^ u32::from(byte)).wrapping_mul(0x0100_0193);
    }
    assert_eq!(a.flow_hash(), h, "FNV-1a of protocol, addresses and ports");
}

#[test]
fn ping_gets_a_valid_reply() {
    let request = icmp_echo([10, 0, 0, 1], [10, 0, 0, 2]);
    let mut out = [0u8; 1500];
    let n = icmp_echo_reply(&request, &mut out).unwrap();
    let reply = &out[..n];
    let info = inspect(reply).unwrap();
    assert_eq!(info.src, Ip::V4(ipv4(10, 0, 0, 2)));
    assert_eq!(info.dst, Ip::V4(ipv4(10, 0, 0, 1)));
    assert_eq!(reply[20], 0, "echo reply");
    assert_eq!(checksum(&reply[..20]), 0);
    assert_eq!(checksum(&reply[20..]), 0);
    assert_eq!(&reply[28..], &request[28..], "the data comes back as it was");
    assert_eq!(icmp_echo_reply(&udp([1, 1, 1, 1], 1, [2, 2, 2, 2], 2, b""), &mut out), None);
}

fn tcp(sport: u16) -> Vec<u8> {
    let mut p = udp([10, 0, 0, 1], sport, [1, 1, 1, 1], 443, b"payload");
    p[9] = 6;
    p
}

fn plain_udp(sport: u16) -> Vec<u8> {
    udp([10, 0, 0, 1], sport, [8, 8, 8, 8], 53, b"q")
}

#[test]
fn tcp_is_numbered_per_flow_and_the_rest_is_plain() {
    let mut s = Sequencer::default();
    let first = s.route(&tcp(1000));
    let Route::Ordered { flow, seq: 0 } = first else { panic!("{first:?}") };
    assert_eq!(s.route(&tcp(1000)), Route::Ordered { flow, seq: 1 }, "the same flow, the next number");
    assert_eq!(s.route(&plain_udp(1000)), Route::Plain);
    assert_eq!(s.route(&tcp(1000)), Route::Ordered { flow, seq: 2 }, "UDP takes no number");
    assert!(flow < FLOW_BUCKETS);
}

#[test]
fn different_connections_usually_land_in_different_buckets() {
    let mut s = Sequencer::default();
    let flows: HashSet<u32> = (0..64u16)
        .filter_map(|port| match s.route(&tcp(2000 + port)) {
            Route::Ordered { flow, .. } => Some(flow),
            _ => None,
        })
        .collect();
    assert!(flows.len() > FLOW_BUCKETS as usize / 2, "the buckets are used: {flows:?}");
}

#[test]
fn garbage_and_oversized_packets_are_dropped() {
    let mut s = Sequencer::default();
    assert_eq!(s.route(&[0u8; 20]), Route::Drop);
    let mut big = plain_udp(1);
    big.resize(MAX_DATA_LEN + 1, 0);
    assert_eq!(s.route(&big), Route::Drop);
}

#[test]
fn bridge_counts_both_directions() {
    let mut stats = BridgeStats::default();
    stats.note_up(Route::Ordered { flow: 1, seq: 1 }, true);
    stats.note_up(Route::Ordered { flow: 1, seq: 2 }, false);
    stats.note_up(Route::Plain, true);
    stats.note_up(Route::Drop, true);
    stats.note_down(true);
    stats.note_down(false);
    assert_eq!(stats.snapshot(), (2, 2, 1, 3));
    let mut tally = Tally::new();
    for packet in [tcp(1), tcp(2), plain_udp(3), icmp_echo([1, 1, 1, 1], [2, 2, 2, 2]), vec![0; 5]] {
        tally.count(&packet);
    }
    assert_eq!(tally, Tally { tcp: 2, udp: 1, ping: 1, other: 1 });
}

#[test]
fn prefix_masks() {
    assert_eq!(prefix_mask(24), ipv4(255, 255, 255, 0));
    assert_eq!(prefix_mask(32), ipv4(255, 255, 255, 255));
    assert_eq!(prefix_mask(0), ipv4(0, 0, 0, 0));
    assert_eq!(prefix_mask(20), ipv4(255, 255, 240, 0));
}

#[test]
fn interface_names_are_validated() {
    assert!(is_interface_name("hp0"));
    assert!(is_interface_name("hp%d"));
    assert!(!is_interface_name("a-name-that-is-too-long"));
    assert!(!is_interface_name("bad\0name"));
}

#[test]
fn cidr_parses() {
    assert_eq!(parse_cidr("10.80.0.2/24"), Some((ipv4(10, 80, 0, 2), 24)));
    assert_eq!(parse_cidr("10.80.0.2"), None);
    assert_eq!(parse_cidr("10.80.0.2/33"), None);
    assert_eq!(parse_cidr("vps/24"), None);
}

#[test]
fn ipv4_texts_are_read_back() {
    for text in ["0.0.0.0", "10.80.0.1", "255.255.255.255"] {
        let mut out = String::new();
        push_ipv4(&mut out, parse_ipv4(text).unwrap());
        assert_eq!(out, text);
    }
    for bad in ["", "1.2.3", "1.2.3.4.5", "256.1.1.1", "01.2.3.4", "1.2.3.x", " 1.2.3.4", "+1.2.3.4"] {
        assert_eq!(parse_ipv4(bad), None, "{bad}");
    }
}

fn incoming(payload: &[u8], client: Option<u8>) -> Incoming {
    Incoming {
        slot: 0,
        payload: Packet::copy_from(payload).unwrap(),
        wrapped: client.map(|client_id| WrappedInfo { client_id, seq: 0 }),
        order: Some((1, 2)),
    }
}

#[test]
fn routes_follow_the_addresses_that_were_given_out() {
    let (router, phone) = (Guid { value: 1 }, Guid { value: 2 });
    let (a, b) = (ipv4(10, 80, 0, 2), ipv4(10, 80, 1, 1));
    let mut routes = Routes::new();
    let (host, behind) = (Owner { peer: router, client: None }, Owner { peer: router, client: Some(3) });
    routes.assign(a, host);
    routes.assign(b, behind);
    assert_eq!((routes.address_of(host), routes.address_of(behind)), (Some(a), Some(b)));

    let mut to_b = udp([9, 9, 9, 9], 1, [10, 80, 1, 1], 2, b"x");
    assert_eq!(routes.uplink(&to_b), Some((behind, Route::Plain)));
    to_b[9] = 6;
    assert!(matches!(routes.uplink(&to_b), Some((o, Route::Ordered { seq: 0, .. })) if o == behind));
    assert!(matches!(routes.uplink(&to_b), Some((_, Route::Ordered { seq: 1, .. }))));
    routes.assign(b, behind);
    assert!(matches!(routes.uplink(&to_b), Some((_, Route::Ordered { seq: 2, .. }))), "nothing has changed");
    assert_eq!(routes.uplink(&udp([9, 9, 9, 9], 1, [10, 80, 7, 7], 2, b"x")), None, "given to nobody");
    assert_eq!(routes.uplink(&[0; 20]), None);

    let from_b = udp([10, 80, 1, 1], 1, [9, 9, 9, 9], 2, b"x");
    assert!(routes.downlink(router, &incoming(&from_b, Some(3))));
    assert!(!routes.downlink(router, &incoming(&from_b, None)), "the router itself has another address");
    assert!(!routes.downlink(router, &incoming(&from_b, Some(4))));
    assert!(!routes.downlink(phone, &incoming(&from_b, Some(3))), "another peer");
    assert!(!routes.downlink(router, &incoming(&[0; 20], Some(3))));

    // The address moves to another owner, who had a different one.
    let other = Owner { peer: phone, client: None };
    routes.assign(ipv4(10, 80, 1, 9), other);
    routes.assign(b, other);
    assert_eq!((routes.address_of(behind), routes.address_of(other)), (None, Some(b)));
    assert!(!routes.downlink(router, &incoming(&from_b, Some(3))));
    assert!(matches!(routes.uplink(&to_b), Some((o, Route::Ordered { seq: 0, .. })) if o == other));
    assert_eq!(routes.uplink(&udp([9, 9, 9, 9], 1, [10, 80, 1, 9], 2, b"x")), None, "the old address is free");
}

#[test]
fn packets_of_the_server_find_their_client() {
    let clients = vec![1u8, 2];
    assert_eq!(route_by_client(&incoming(b"x", Some(2)), &clients), ClientRoute::To(2));
    assert_eq!(route_by_client(&incoming(b"x", Some(9)), &clients), ClientRoute::Unknown(9));
    assert_eq!(route_by_client(&incoming(b"x", None), &clients), ClientRoute::NoClient);
    let mut stats = DirectionStats::default();
    count_routed(&mut stats, ClientRoute::Unknown(9), true);
    count_routed(&mut stats, ClientRoute::NoClient, true);
    count_routed(&mut stats, ClientRoute::To(1), true);
    assert_eq!(stats.snapshot(), (1, 2));
    stats.note(false);
    assert_eq!(stats.snapshot(), (1, 3));
    assert_eq!(route_to_phone(&incoming(b"x", Some(1)), &clients), PhoneRoute::To(1, Some((1, 2))));
    assert_eq!(route_to_phone(&incoming(b"x", Some(9)), &clients), PhoneRoute::Unknown(9));
    assert_eq!(route_to_phone(&incoming(b"x", None), &clients), PhoneRoute::Own);
    assert!(from_phone(&incoming(b"x", None)));
    assert!(!from_phone(&incoming(b"x", Some(1))));
}

#[test]
fn status_line_is_readable() {
    let status = status(7, Some((12, 99, 10, 1)));
    assert_eq!(status.text(), "дыры 7/10, TUN подключён, отправлено 12, получено 10, потеряно 1");
}

#[test]
fn status_without_a_device_counts_nothing() {
    assert_eq!(status(0, None).text(), "дыры 0/10, TUN нет, отправлено 0, получено 0, потеряно 0");
    assert_eq!((options(8, 3).reorder_wait, options(8, 3).data_holes), (8 * MILLI, 3));
}

#[test]
fn local_bridge_answers_the_latest_source() {
    let at = |port| Endpoint::new(Ip::V4(ipv4(127, 0, 0, 1)), port);
    let mut bridge = LocalBridge::new();
    assert_eq!(bridge.target(), None, "before any traffic the packet is lost");
    assert!(bridge.datagram(at(1), MAX_DATA_LEN));
    bridge.note_up(true);
    assert!(!bridge.datagram(at(2), MAX_DATA_LEN + 1), "too long");
    bridge.note_up(false);
    assert_eq!(bridge.target(), Some(at(2)));
    bridge.note_down(true);
    bridge.note_down(false);
    assert_eq!(bridge.stats.snapshot(), (1, 1, 4));
}

#[test]
fn inactive_clients_are_removed_and_recreated_on_next_packet() {
    let (direct, routed) = (ClientKey::Direct, ClientKey::Routed(7));
    assert_eq!((direct.text(), routed.text()), ("прямой".to_string(), "7".to_string()));
    assert_eq!(ClientKey::of_packet(Some(WrappedInfo { client_id: 7, seq: 1 })), routed);
    assert_eq!(ClientKey::of_packet(None), direct);
    let mut clients: Clients<&str> = Clients::new(100);
    assert_eq!(clients.touch(direct, 5), None);
    assert_eq!(clients.socket(direct), None);
    assert!(clients.insert(direct, "one", 5));
    assert!(!clients.insert(direct, "another", 6), "it has a socket");
    assert_eq!(clients.socket(direct), Some(&"one"));
    assert_eq!(clients.touch(direct, 10), Some(&"one"), "the first socket stays");
    clients.insert(routed, "seven", 10);
    assert_eq!(clients.client_count(), 2);
    assert_eq!(clients.cleanup(110), vec![], "exactly the timeout is not too long");
    clients.touch(routed, 50);
    assert_eq!(clients.cleanup(111), vec![direct]);
    assert_eq!((clients.client_count(), clients.touch(direct, 112)), (1, None));
    clients.insert(direct, "new", 113);
    assert_eq!(clients.touch(direct, 114), Some(&"new"));
}
