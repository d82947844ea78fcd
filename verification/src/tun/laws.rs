//! What is promised of the packets of a device, byte by byte.

use crate::bytes::{be_bytes, be_value, lemma_be_value};
use crate::guid::Guid;
use crate::multilink::Incoming;
use crate::net::Ip;
use crate::tun::bridge::{bucket, BridgeStats, Route, Sequencer};
use crate::tun::hub::{Owner, Routes};
use crate::tun::packet::{address_bytes, flow_bytes, fnv, fnv_step, inspect, inspected, Info, Proto};
use crate::tun::tally::Tally;
use vstd::prelude::*;

verus! {

/// The bytes start with a whole IPv4 header: its length, in words of four bytes, is at least five.
pub open spec fn starts_with_ipv4(p: Seq<u8>) -> bool {
    p.len() >= 20 && p[0] / 16 == 4 && p[0] % 16 >= 5 && (p[0] % 16) * 4 <= p.len()
}

/// The bytes start with a whole IPv6 header.
pub open spec fn starts_with_ipv6(p: Seq<u8>) -> bool {
    p.len() >= 40 && p[0] / 16 == 6
}

/// The byte that names the transport protocol.
pub open spec fn protocol_byte(p: Seq<u8>) -> u8 {
    if p[0] / 16 == 4 {
        p[9]
    } else {
        p[6]
    }
}

/// The IPv4 address at a place.
pub open spec fn address_at(p: Seq<u8>, at: int) -> int {
    p[at] * 0x100_0000 + p[at + 1] * 0x1_0000 + p[at + 2] * 0x100 + p[at + 3]
}

/// The number of two bytes at a place.
pub open spec fn word_in(p: Seq<u8>, at: int) -> int {
    p[at] * 0x100 + p[at + 1]
}

proof fn lemma_four_bytes(p: Seq<u8>, at: int)
    requires
        0 <= at,
        at + 4 <= p.len(),
    ensures
        be_value(p.subrange(at, at + 4)) == address_at(p, at),
        address_at(p, at) <= u32::MAX,
{
    let s = p.subrange(at, at + 4);
    reveal_with_fuel(be_value, 5);
    assert(s.drop_last().drop_last().drop_last().drop_last().len() == 0);
    assert(s.drop_last().drop_last().drop_last().last() == p[at]);
    assert(s.drop_last().drop_last().last() == p[at + 1]);
    assert(s.drop_last().last() == p[at + 2]);
    assert(s.last() == p[at + 3]);
}

/// A packet is read exactly if it starts with a whole IPv4 or IPv6 header. Nothing else of it is
/// looked at: neither its checksum nor whether it is as long as its header says.
pub proof fn law_ip_packets_are_read(packet: &[u8], info: Option<Info>)
    requires
        call_ensures(inspect, (packet,), info),
    ensures
        info is Some <==> starts_with_ipv4(packet@) || starts_with_ipv6(packet@),
        info matches Some(i) ==> i.version == packet@[0] / 16,
        info matches Some(i) ==> match i.proto {
            Proto::Tcp => protocol_byte(packet@) == 6,
            Proto::Udp => protocol_byte(packet@) == 17,
            Proto::Icmp => protocol_byte(packet@) == 1 || protocol_byte(packet@) == 58,
            Proto::Other(n) => protocol_byte(packet@) == n && n != 6 && n != 17 && n != 1 && n != 58,
        },
{
}

/// What is read of an IPv4 header: the length in bytes 2 and 3, the addresses in bytes 12 to 15
/// and 16 to 19, and of TCP and UDP the ports in the four bytes behind the header, unless the packet
/// is a later fragment or ends before them.
pub proof fn law_ipv4_header_is_read(packet: &[u8], info: Option<Info>)
    requires
        call_ensures(inspect, (packet,), info),
        starts_with_ipv4(packet@),
    ensures
        ({
            let (p, at) = (packet@, (packet@[0] % 16) * 4);
            let ported = p[9] == 6 || p[9] == 17;
            &&& info matches Some(i)
            &&& i.src == Ip::V4(address_at(p, 12) as u32)
            &&& i.dst == Ip::V4(address_at(p, 16) as u32)
            &&& i.len == word_in(p, 2)
            &&& i.ports is Some <==> ported && word_in(p, 6) % 0x2000 == 0 && at + 4 <= p.len()
            &&& i.ports matches Some((from, to)) ==> from == word_in(p, at) && to == word_in(p, at + 2)
        }),
{
    lemma_four_bytes(packet@, 12);
    lemma_four_bytes(packet@, 16);
}

/// What is read of an IPv6 header: the length of what follows it in bytes 4 and 5, the addresses
/// in bytes 8 to 23 and 24 to 39, and of TCP and UDP the ports in the four bytes behind it.
pub proof fn law_ipv6_header_is_read(packet: &[u8], info: Option<Info>)
    requires
        call_ensures(inspect, (packet,), info),
        starts_with_ipv6(packet@),
    ensures
        ({
            let p = packet@;
            let ported = p[6] == 6 || p[6] == 17;
            &&& info matches Some(i)
            &&& i.src matches Ip::V6(src) && be_bytes(src as nat, 16) == p.subrange(8, 24)
            &&& i.dst matches Ip::V6(dst) && be_bytes(dst as nat, 16) == p.subrange(24, 40)
            &&& i.len == 40 + word_in(p, 4)
            &&& i.ports is Some <==> ported && p.len() >= 44
            &&& i.ports matches Some((from, to)) ==> from == word_in(p, 40) && to == word_in(p, 42)
        }),
{
    let p = packet@;
    lemma_be_value(p.subrange(8, 24));
    lemma_be_value(p.subrange(24, 40));
    crate::bytes::lemma_pow256_16();
}

/// A packet is dropped only if it is longer than 1400 bytes or no IP packet. Every other one
/// travels: TCP with a number, and everything else (UDP, pings, any other protocol) without.
pub proof fn law_every_ip_packet_that_fits_travels()
    ensures
        forall|s: &mut Sequencer, packet: &[u8], route: Route| #[trigger]
            call_ensures(Sequencer::route, (s, packet), route) ==> {
                let ip = starts_with_ipv4(packet@) || starts_with_ipv6(packet@);
                &&& route is Drop <==> packet@.len() > 1400 || !ip
                &&& route is Ordered <==> packet@.len() <= 1400 && ip && protocol_byte(packet@) == 6
                &&& route is Plain <==> packet@.len() <= 1400 && ip && protocol_byte(packet@) != 6
            },
{
}

/// The same of a packet that was read before, with a length of its own.
pub proof fn law_every_packet_that_was_read_travels()
    ensures
        forall|s: &mut Sequencer, len: usize, info: Option<&Info>, route: Route| #[trigger]
            call_ensures(Sequencer::route_inspected, (s, len, info), route) ==> {
                &&& route is Drop <==> len > 1400 || info is None
                &&& route is Plain <==> len <= 1400 && (info matches Some(i) && !(i.proto is Tcp))
                &&& route is Ordered <==> len <= 1400 && (info matches Some(i) && i.proto is Tcp)
            },
{
}

/// A numbered packet gets the next number of one of 16 buckets, and that bucket alone goes on by
/// one; a packet without a number leaves all buckets as they are.
pub proof fn law_a_number_is_used_once()
    ensures
        forall|s: &mut Sequencer, packet: &[u8], route: Route| #[trigger]
            call_ensures(Sequencer::route, (s, packet), route) ==> match route {
                Route::Ordered { flow, seq } => {
                    &&& flow < 16
                    &&& seq == (*s)@[flow as int]
                    &&& seq < u64::MAX ==> final(s)@ == (*s)@.update(flow as int, (seq + 1) as u64)
                },
                _ => final(s)@ == (*s)@,
            },
{
}

/// The TCP packets of one connection, in one direction, share a bucket, whatever else they hold:
/// the same version, addresses and ports give the same bucket.
pub proof fn law_a_connection_stays_in_its_bucket(p: Seq<u8>, q: Seq<u8>, a: Info, b: Info)
    requires
        inspected(p) == Some(a),
        inspected(q) == Some(b),
        starts_with_ipv4(p) && starts_with_ipv4(q) && p[9] == q[9],
        p.subrange(12, 20) == q.subrange(12, 20),
        a.ports == b.ports,
    ensures
        bucket(a) == bucket(b),
{
    assert(p.subrange(12, 16) =~= p.subrange(12, 20).take(4));
    assert(q.subrange(12, 16) =~= q.subrange(12, 20).take(4));
    assert(p.subrange(16, 20) =~= p.subrange(12, 20).skip(4));
    assert(q.subrange(16, 20) =~= q.subrange(12, 20).skip(4));
}

/// Connections are spread over the buckets: of two that differ in the lowest four bits of the port
/// that they go to, and in nothing else, each has a bucket of its own.
pub proof fn law_connections_are_spread_over_the_buckets(a: Info, from: u16, to: u16, other: u16)
    requires
        to / 16 == other / 16,
        to != other,
    ensures
        bucket(Info { ports: Some((from, to)), ..a }) != bucket(
            Info { ports: Some((from, other)), ..a },
        ),
        bucket(a) < 16,
{
    let x = flow_bytes(a.proto, a.src, a.dst, Some((from, to)));
    let y = flow_bytes(a.proto, a.src, a.dst, Some((from, other)));
    reveal_with_fuel(be_bytes, 3);
    let head = seq![a.proto.number()] + address_bytes(a.src, a.dst) + be_bytes(from as nat, 2);
    let common = head.push((to / 256) as u8);
    assert(to / 256 == other / 256);
    assert(be_bytes(to as nat, 2) =~= seq![(to / 256) as u8, (to % 256) as u8]);
    assert(be_bytes(other as nat, 2) =~= seq![(to / 256) as u8, (other % 256) as u8]);
    assert(x.drop_last() =~= common);
    assert(y.drop_last() =~= common);
    assert(x.last() == (to % 256) as u8);
    assert(y.last() == (other % 256) as u8);
    let h = fnv(common);
    let (u, v) = ((to % 256) as u8, (other % 256) as u8);
    assert(u % 16 != v % 16);
    assert(fnv(x) == fnv_step(h, u) && fnv(y) == fnv_step(h, v));
    lemma_low_bits(h, u, v);
}

proof fn lemma_low_bits(h: u32, u: u8, v: u8)
    requires
        u % 16 != v % 16,
    ensures
        fnv_step(h, u) % 16 != fnv_step(h, v) % 16,
{
    let (c, d) = (u as u32, v as u32);
    let (a, b) = (h ^ c, h ^ d);
    assert((h ^ c) % 16u32 != (h ^ d) % 16u32) by (bit_vector)
        requires
            c % 16u32 != d % 16u32,
    ;
    lemma_product(a);
    lemma_product(b);
}

/// The last four bits of a product with a multiplier that ends in 3.
proof fn lemma_product(a: u32)
    ensures
        a.wrapping_mul(0x0100_0193) % 16 == (a % 16) * 3 % 16,
{
    let m = a as int * 0x0100_0193;
    let w = a.wrapping_mul(0x0100_0193) as int;
    assert(w == m % 0x1_0000_0000);
    assert(w % 16 == m % 16) by (nonlinear_arith)
        requires
            w == m % 0x1_0000_0000,
    ;
    let (d, r) = (a as int / 16, a as int % 16);
    assert(m == 16 * (d * 0x0100_0193 + r * 0x10_0019) + r * 3) by (nonlinear_arith)
        requires
            m == a as int * 0x0100_0193,
            a as int == 16 * d + r,
    ;
    assert(m % 16 == (r * 3) % 16);
}

/// Every packet of the device is counted once, as sent or as lost; those with a number are counted
/// beside that.
pub proof fn law_every_packet_up_is_counted_once()
    ensures
        forall|b: &mut BridgeStats, route: Route, sent: bool| #[trigger]
            call_ensures(BridgeStats::note_up, (b, route, sent), ()) && (*b).to_peer < u32::MAX
                && (*b).dropped < u32::MAX && (*b).ordered < u32::MAX ==> {
                &&& final(b).to_peer + final(b).dropped == (*b).to_peer + (*b).dropped + 1
                &&& final(b).to_peer > (*b).to_peer <==> sent && !(route is Drop)
                &&& final(b).ordered == (*b).ordered + if route is Ordered {
                    1int
                } else {
                    0int
                }
                &&& final(b).from_peer == (*b).from_peer
            },
{
}

/// Every packet of the peer is counted once, as written or as lost.
pub proof fn law_every_packet_down_is_counted_once()
    ensures
        forall|b: &mut BridgeStats, written: bool| #[trigger]
            call_ensures(BridgeStats::note_down, (b, written), ()) && (*b).from_peer < u32::MAX
                && (*b).dropped < u32::MAX ==> {
                &&& final(b).from_peer + final(b).dropped == (*b).from_peer + (*b).dropped + 1
                &&& final(b).from_peer > (*b).from_peer <==> written
                &&& final(b).to_peer == (*b).to_peer && final(b).ordered == (*b).ordered
            },
{
}

/// Every packet is counted once, by its protocol; one that is no IP packet counts as another one.
pub proof fn law_every_packet_is_counted_by_its_protocol()
    ensures
        forall|t: &mut Tally, packet: &[u8]| #[trigger]
            call_ensures(Tally::count, (t, packet), ()) && (*t).tcp < u32::MAX && (*t).udp < u32::MAX
                && (*t).ping < u32::MAX && (*t).other < u32::MAX ==> {
                let ip = starts_with_ipv4(packet@) || starts_with_ipv6(packet@);
                let n = protocol_byte(packet@);
                &&& final(t).tcp + final(t).udp + final(t).ping + final(t).other == (*t).tcp
                    + (*t).udp + (*t).ping + (*t).other + 1
                &&& final(t).tcp != (*t).tcp <==> ip && n == 6
                &&& final(t).udp != (*t).udp <==> ip && n == 17
                &&& final(t).ping != (*t).ping <==> ip && (n == 1 || n == 58)
            },
{
}

/// A packet of a peer is let through exactly if it is an IPv4 packet whose source address was
/// given to its sender: to the peer itself, where the packet is not wrapped, and to the client
/// behind the peer, where it is wrapped for that client.
pub proof fn law_own_source_is_let_through(
    routes: &Routes,
    peer: Guid,
    packet: &Incoming,
    allowed: bool,
)
    requires
        call_ensures(Routes::downlink, (routes, peer, packet), allowed),
    ensures
        ({
            let (p, given) = (packet.payload@, routes.addresses());
            let alone = Owner { peer, client: None };
            let behind = Owner { peer, client: Some(packet.wrapped->0.client_id) };
            &&& packet.wrapped is None ==> (allowed <==> starts_with_ipv4(p) && given.contains_key(
                alone,
            ) && given[alone] == address_at(p, 12))
            &&& packet.wrapped is Some ==> (allowed <==> starts_with_ipv4(p) && given.contains_key(
                behind,
            ) && given[behind] == address_at(p, 12))
        }),
{
    let p = packet.payload@;
    if starts_with_ipv4(p) {
        lemma_four_bytes(p, 12);
    }
}

/// A packet of the device goes to the owner of its IPv4 destination, and nowhere where nobody was
/// given that address. How it travels to its owner follows from its protocol and its length.
pub proof fn law_packets_go_to_the_owner_of_their_destination()
    ensures
        forall|r: &mut Routes, packet: &[u8], to: Option<(Owner, Route)>| #[trigger]
            call_ensures(Routes::uplink, (r, packet), to) ==> {
                let dst = address_at(packet@, 16) as u32;
                &&& to is Some <==> starts_with_ipv4(packet@) && (*r).targets().contains_key(dst)
                &&& to matches Some((owner, route)) ==> {
                    &&& owner == (*r).targets()[dst].owner
                    &&& route is Drop <==> packet@.len() > 1400
                    &&& route is Ordered <==> packet@.len() <= 1400 && packet@[9] == 6
                    &&& route matches Route::Ordered { flow, seq } ==> flow < 16 && seq
                        == (*r).targets()[dst].sequencer@[flow as int]
                }
            },
{
    assert forall|r: &mut Routes, packet: &[u8], to: Option<(Owner, Route)>| #[trigger]
        call_ensures(Routes::uplink, (r, packet), to) implies {
        let dst = address_at(packet@, 16) as u32;
        &&& to is Some <==> starts_with_ipv4(packet@) && (*r).targets().contains_key(dst)
        &&& to matches Some((owner, route)) ==> {
            &&& owner == (*r).targets()[dst].owner
            &&& route is Drop <==> packet@.len() > 1400
            &&& route is Ordered <==> packet@.len() <= 1400 && packet@[9] == 6
            &&& route matches Route::Ordered { flow, seq } ==> flow < 16 && seq
                == (*r).targets()[dst].sequencer@[flow as int]
        }
    } by {
        if starts_with_ipv4(packet@) {
            lemma_four_bytes(packet@, 16);
        }
    }
}

/// Nobody's flow is held up by another's: a packet to one address leaves the numbers of every
/// other address alone, and no packet changes whose an address is.
pub proof fn law_addresses_are_numbered_apart()
    ensures
        forall|r: &mut Routes, packet: &[u8], to: Option<(Owner, Route)>, a: u32|
            #![trigger call_ensures(Routes::uplink, (r, packet), to), (*r).targets().contains_key(a)]
            call_ensures(Routes::uplink, (r, packet), to) && (*r).targets().contains_key(a) ==> {
                &&& final(r).targets().contains_key(a)
                &&& final(r).targets()[a].owner == (*r).targets()[a].owner
                &&& !(starts_with_ipv4(packet@) && address_at(packet@, 16) == a)
                    ==> final(r).targets()[a].sequencer@ == (*r).targets()[a].sequencer@
            },
{
    assert forall|r: &mut Routes, packet: &[u8], to: Option<(Owner, Route)>, a: u32|
        #![trigger call_ensures(Routes::uplink, (r, packet), to), (*r).targets().contains_key(a)]
        call_ensures(Routes::uplink, (r, packet), to) && (*r).targets().contains_key(a) implies {
        &&& final(r).targets().contains_key(a)
        &&& final(r).targets()[a].owner == (*r).targets()[a].owner
        &&& !(starts_with_ipv4(packet@) && address_at(packet@, 16) == a)
            ==> final(r).targets()[a].sequencer@ == (*r).targets()[a].sequencer@
    } by {
        assert((*r).targets().dom().contains(a));
        if starts_with_ipv4(packet@) {
            lemma_four_bytes(packet@, 16);
            let dst = address_at(packet@, 16) as u32;
            if dst != a && (*r).targets().contains_key(dst) {
                assert(final(r).targets().remove(dst)[a] == (*r).targets().remove(dst)[a]);
            }
        }
    }
}

/// Giving an address to an owner binds the two to each other. Whoever had the address before has
/// none any more, the address that the owner had before is nobody's, and everyone else keeps
/// theirs.
pub proof fn law_an_address_has_one_owner()
    ensures
        forall|r: &mut Routes, address: u32, owner: Owner| #[trigger]
            call_ensures(Routes::assign, (r, address, owner), ()) && (*r).wf() ==> {
                &&& final(r).addresses().contains_key(owner) && final(r).addresses()[owner]
                    == address
                &&& final(r).targets().contains_key(address) && final(r).targets()[address].owner
                    == owner
                &&& forall|o: Owner|
                    o != owner ==> (#[trigger] final(r).addresses().contains_key(o) <==> (
                    *r).addresses().contains_key(o) && (*r).addresses()[o] != address)
                &&& forall|o: Owner|
                    o != owner && #[trigger] final(r).addresses().contains_key(o)
                        ==> final(r).addresses()[o] == (*r).addresses()[o]
                &&& forall|a: u32|
                    a != address ==> (#[trigger] final(r).targets().contains_key(a) <==> (
                    *r).targets().contains_key(a) && (*r).targets()[a].owner != owner)
            },
{
    assert forall|r: &mut Routes, address: u32, owner: Owner| #[trigger]
        call_ensures(Routes::assign, (r, address, owner), ()) && (*r).wf() implies {
        &&& final(r).addresses().contains_key(owner) && final(r).addresses()[owner] == address
        &&& final(r).targets().contains_key(address) && final(r).targets()[address].owner == owner
        &&& forall|o: Owner|
            o != owner ==> (#[trigger] final(r).addresses().contains_key(o) <==> (
            *r).addresses().contains_key(o) && (*r).addresses()[o] != address)
        &&& forall|o: Owner|
            o != owner && #[trigger] final(r).addresses().contains_key(o)
                ==> final(r).addresses()[o] == (*r).addresses()[o]
        &&& forall|a: u32|
            a != address ==> (#[trigger] final(r).targets().contains_key(a) <==> (
            *r).targets().contains_key(a) && (*r).targets()[a].owner != owner)
    } by {
        assert forall|o: Owner| o != owner implies (#[trigger] final(r).addresses().contains_key(o)
            <==> (*r).addresses().contains_key(o) && (*r).addresses()[o] != address) by {
            if (*r).addresses().contains_key(o) {
                assert((*r).targets()[(*r).addresses()[o]].owner == o);
            }
            if (*r).targets().contains_key(address) {
                assert((*r).addresses().contains_key((*r).targets()[address].owner));
            }
        }
        assert forall|a: u32| a != address implies (#[trigger] final(r).targets().contains_key(a)
            <==> (*r).targets().contains_key(a) && (*r).targets()[a].owner != owner) by {
            assert(final(r).targets().remove(address).contains_key(a)
                <==> final(r).targets().contains_key(a));
            if (*r).targets().contains_key(a) {
                assert((*r).addresses().contains_key((*r).targets()[a].owner));
            }
            if (*r).addresses().contains_key(owner) {
                assert((*r).targets().contains_key((*r).addresses()[owner]));
            }
        }
    }
}

/// The hash of bytes: from 2166136261 on, each byte is combined with the lowest eight bits, and the
/// result taken 16777619 times, modulo 2 to the power of 32.
pub open spec fn hash_of(bytes: Seq<u8>) -> int
    decreases bytes.len(),
{
    if bytes.len() == 0 {
        2166136261
    } else {
        ((hash_of(bytes.drop_last()) as u32 ^ bytes.last() as u32) * 16777619) % 4294967296
    }
}

proof fn lemma_hash_of(bytes: Seq<u8>)
    ensures
        fnv(bytes) == hash_of(bytes),
    decreases bytes.len(),
{
    if bytes.len() > 0 {
        lemma_hash_of(bytes.drop_last());
    }
}

/// The hash of an IPv4 flow is that of its protocol, both addresses and both ports, where it has
/// ports, highest bytes first.
pub proof fn law_a_flow_is_hashed_by_all_that_tells_it(
    info: Info,
    kind: u8,
    src: u32,
    dst: u32,
    h: u32,
)
    requires
        call_ensures(Proto::from_number, (kind,), info.proto),
        kind != 58,
        call_ensures(Info::flow_hash, (&info,), h),
        info.src == Ip::V4(src),
        info.dst == Ip::V4(dst),
    ensures
        ({
            let front = seq![
                kind,
                (src / 16777216) as u8,
                (src / 65536 % 256) as u8,
                (src / 256 % 256) as u8,
                (src % 256) as u8,
                (dst / 16777216) as u8,
                (dst / 65536 % 256) as u8,
                (dst / 256 % 256) as u8,
                (dst % 256) as u8,
            ];
            match info.ports {
                None => h == hash_of(front),
                Some((from, to)) => h == hash_of(
                    front + seq![
                        (from / 256) as u8,
                        (from % 256) as u8,
                        (to / 256) as u8,
                        (to % 256) as u8,
                    ],
                ),
            }
        }),
{
    let bytes = flow_bytes(info.proto, info.src, info.dst, info.ports);
    lemma_hash_of(bytes);
    assert(kind == info.proto.number());
    let front = seq![
        kind,
        (src / 16777216) as u8,
        (src / 65536 % 256) as u8,
        (src / 256 % 256) as u8,
        (src % 256) as u8,
        (dst / 16777216) as u8,
        (dst / 65536 % 256) as u8,
        (dst / 256 % 256) as u8,
        (dst % 256) as u8,
    ];
    lemma_address_bytes(src);
    lemma_address_bytes(dst);
    assert(seq![kind] + address_bytes(info.src, info.dst) =~= front);
    match info.ports {
        None => {
            assert(bytes =~= front);
        },
        Some((from, to)) => {
            reveal_with_fuel(be_bytes, 3);
            assert(be_bytes(from as nat, 2) =~= seq![(from / 256) as u8, (from % 256) as u8]);
            assert(be_bytes(to as nat, 2) =~= seq![(to / 256) as u8, (to % 256) as u8]);
            assert(bytes =~= front + seq![
                (from / 256) as u8,
                (from % 256) as u8,
                (to / 256) as u8,
                (to % 256) as u8,
            ]);
        },
    }
}

proof fn lemma_address_bytes(a: u32)
    ensures
        be_bytes(a as nat, 4) == seq![
            (a / 16777216) as u8,
            (a / 65536 % 256) as u8,
            (a / 256 % 256) as u8,
            (a % 256) as u8,
        ],
{
    reveal_with_fuel(be_bytes, 5);
    let n = a as nat;
    assert(n / 256 / 256 % 256 == n / 65536 % 256 && n / 256 / 256 / 256 == n / 16777216);
    assert(be_bytes(n, 4) =~= seq![
        (a / 16777216) as u8,
        (a / 65536 % 256) as u8,
        (a / 256 % 256) as u8,
        (a % 256) as u8,
    ]);
}

/// Protocols are told by their numbers: 6 is TCP, 17 UDP, 1 and 58 control messages.
pub proof fn law_protocols_have_numbers(n: u8, proto: Proto)
    requires
        call_ensures(Proto::from_number, (n,), proto),
    ensures
        proto is Tcp <==> n == 6,
        proto is Udp <==> n == 17,
        proto is Icmp <==> n == 1 || n == 58,
        proto matches Proto::Other(m) ==> m == n,
{
}

/// Routes start empty; the address of an owner is the one that was noted for it.
pub proof fn law_routes_tell_the_address_of_an_owner(
    start: Routes,
    routes: &Routes,
    owner: Owner,
    address: Option<u32>,
)
    requires
        call_ensures(Routes::new, (), start),
        call_ensures(Routes::address_of, (routes, owner), address),
    ensures
        !start.addresses().contains_key(owner),
        address is Some <==> routes.addresses().contains_key(owner),
        address matches Some(a) ==> a == routes.addresses()[owner],
{
}

} // verus!
