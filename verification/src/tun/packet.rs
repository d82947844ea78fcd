//! Headers of IP packets: version, protocol, addresses, ports and the hash of the connection.

use crate::bytes::{be16, be_bytes, be_value, lemma_be_value, put_be, read_be};
use crate::net::Ip;
use vstd::prelude::*;

verus! {

/// Transport protocol.
#[derive(Clone, Copy, Debug, PartialEq, Eq, Structural)]
pub enum Proto {
    Tcp,
    Udp,
    Icmp,
    Other(u8),
}

impl Proto {
    /// The protocol with a number.
    pub open spec fn numbered(n: u8) -> Self {
        if n == 6 {
            Proto::Tcp
        } else if n == 17 {
            Proto::Udp
        } else if n == 1 || n == 58 {
            Proto::Icmp
        } else {
            Proto::Other(n)
        }
    }

    /// The number that stands for the protocol in the hash of a connection.
    pub open spec fn number(self) -> u8 {
        match self {
            Proto::Tcp => 6,
            Proto::Udp => 17,
            Proto::Icmp => 1,
            Proto::Other(n) => n,
        }
    }

    /// The number that stands for the protocol in the hash of a connection.
    fn hash_number(&self) -> (n: u8)
        ensures
            n == self.number(),
    {
        match self {
            Proto::Tcp => 6,
            Proto::Udp => 17,
            Proto::Icmp => 1,
            Proto::Other(n) => *n,
        }
    }

    pub fn from_number(n: u8) -> (proto: Self)
        ensures
            proto == Self::numbered(n),
    {
        match n {
            6 => Proto::Tcp,
            17 => Proto::Udp,
            1 => Proto::Icmp,
            58 => Proto::Icmp,
            other => Proto::Other(other),
        }
    }

    /// TCP or UDP: packets with ports.
    pub open spec fn has_ports(self) -> bool {
        self == Proto::Tcp || self == Proto::Udp
    }
}

/// What the header of a packet says.
#[derive(Clone, Copy, Debug, PartialEq, Eq)]
pub struct Info {
    pub version: u8,
    pub proto: Proto,
    pub src: Ip,
    pub dst: Ip,
    /// Ports of TCP and UDP (`None` for later IPv4 fragments and other protocols).
    pub ports: Option<(u16, u16)>,
    /// Length of the packet by its header.
    pub len: usize,
}

/// One step of the FNV-1a hash.
pub open spec fn fnv_step(h: u32, b: u8) -> u32 {
    (h ^ b as u32).wrapping_mul(0x0100_0193)
}

/// The FNV-1a hash of `s`, 32 bits.
pub open spec fn fnv(s: Seq<u8>) -> u32
    decreases s.len(),
{
    if s.len() == 0 {
        0x811c_9dc5
    } else {
        fnv_step(fnv(s.drop_last()), s.last())
    }
}

/// The bytes of an address as an IPv6 one; IPv4 is mapped into `::ffff:0:0/96`.
pub open spec fn ip_bytes16(ip: Ip) -> Seq<u8> {
    match ip {
        Ip::V4(a) => seq![0u8, 0, 0, 0, 0, 0, 0, 0, 0, 0, 0xff, 0xff] + be_bytes(a as nat, 4),
        Ip::V6(a) => be_bytes(a as nat, 16),
    }
}

/// The bytes of two addresses.
pub open spec fn address_bytes(src: Ip, dst: Ip) -> Seq<u8> {
    match (src, dst) {
        (Ip::V4(s), Ip::V4(d)) => be_bytes(s as nat, 4) + be_bytes(d as nat, 4),
        _ => ip_bytes16(src) + ip_bytes16(dst),
    }
}

/// The bytes of two ports.
pub open spec fn port_bytes(ports: Option<(u16, u16)>) -> Seq<u8> {
    match ports {
        Some((s, d)) => be_bytes(s as nat, 2) + be_bytes(d as nat, 2),
        None => Seq::empty(),
    }
}

/// What a connection is hashed by: protocol, addresses and ports.
pub open spec fn flow_bytes(proto: Proto, src: Ip, dst: Ip, ports: Option<(u16, u16)>) -> Seq<u8> {
    seq![proto.number()] + address_bytes(src, dst) + port_bytes(ports)
}

fn put_ip16(out: &mut Vec<u8>, ip: Ip)
    ensures
        final(out)@ == old(out)@ + ip_bytes16(ip),
{
    match ip {
        Ip::V4(a) => {
            put_be(out, 0xffff, 12);
            proof {
                assert(be_bytes(0xffff, 12) =~= seq![0u8, 0, 0, 0, 0, 0, 0, 0, 0, 0, 0xff, 0xff]) by {
                    reveal_with_fuel(be_bytes, 13);
                }
            }
            put_be(out, a as u128, 4);
            assert(out@ =~= old(out)@ + ip_bytes16(ip));
        },
        Ip::V6(a) => {
            put_be(out, a, 16);
        },
    }
}

impl Info {
    /// The hash of the connection: the same for all packets of one flow in one direction.
    pub fn flow_hash(&self) -> (h: u32)
        ensures
            h == fnv(flow_bytes(self.proto, self.src, self.dst, self.ports)),
    {
        let mut input: Vec<u8> = Vec::new();
        input.push(self.proto.hash_number());
        match (self.src, self.dst) {
            (Ip::V4(s), Ip::V4(d)) => {
                put_be(&mut input, s as u128, 4);
                put_be(&mut input, d as u128, 4);
            },
            (s, d) => {
                put_ip16(&mut input, s);
                put_ip16(&mut input, d);
            },
        }
        assert(input@ =~= seq![self.proto.number()] + address_bytes(self.src, self.dst));
        if let Some((sp, dp)) = self.ports {
            put_be(&mut input, sp as u128, 2);
            put_be(&mut input, dp as u128, 2);
        }
        assert(input@ =~= flow_bytes(self.proto, self.src, self.dst, self.ports));
        let mut h: u32 = 0x811c_9dc5;
        let mut i: usize = 0;
        assert(input@.take(0) =~= Seq::<u8>::empty());
        while i < input.len()
            invariant
                i <= input@.len(),
                h == fnv(input@.take(i as int)),
            decreases input@.len() - i,
        {
            assert(input@.take(i + 1).drop_last() =~= input@.take(i as int));
            h = (h ^ input[i] as u32).wrapping_mul(0x0100_0193);
            i += 1;
        }
        assert(input@.take(i as int) =~= input@);
        h
    }
}

/// The ports at `offset`, if the packet reaches that far.
pub open spec fn ports_from(packet: Seq<u8>, offset: int) -> Option<(u16, u16)> {
    if offset + 4 <= packet.len() {
        Some((be16(packet[offset], packet[offset + 1]), be16(packet[offset + 2], packet[offset + 3])))
    } else {
        None
    }
}

/// Length of the IPv4 header by its first byte.
pub open spec fn header_len(first: u8) -> int {
    (first % 16) * 4
}

/// What an IPv4 header says.
pub open spec fn ipv4_info(packet: Seq<u8>) -> Info {
    let proto = Proto::numbered(packet[9]);
    let first_fragment = be16(packet[6], packet[7]) % 0x2000 == 0;
    Info {
        version: 4,
        proto,
        src: Ip::V4(be_value(packet.subrange(12, 16)) as u32),
        dst: Ip::V4(be_value(packet.subrange(16, 20)) as u32),
        ports: if proto.has_ports() && first_fragment {
            ports_from(packet, header_len(packet[0]))
        } else {
            None
        },
        len: be16(packet[2], packet[3]) as usize,
    }
}

/// What an IPv6 header says; extension headers are not followed.
pub open spec fn ipv6_info(packet: Seq<u8>) -> Info {
    let proto = Proto::numbered(packet[6]);
    Info {
        version: 6,
        proto,
        src: Ip::V6(be_value(packet.subrange(8, 24)) as u128),
        dst: Ip::V6(be_value(packet.subrange(24, 40)) as u128),
        ports: if proto.has_ports() {
            ports_from(packet, 40)
        } else {
            None
        },
        len: (40 + be16(packet[4], packet[5])) as usize,
    }
}

/// What the header of a packet says; `None` if it is neither IPv4 nor IPv6, or shorter than its
/// header.
pub open spec fn inspected(packet: Seq<u8>) -> Option<Info> {
    if packet.len() == 0 {
        None
    } else if packet[0] / 16 == 4 {
        if header_len(packet[0]) < 20 || packet.len() < header_len(packet[0]) {
            None
        } else {
            Some(ipv4_info(packet))
        }
    } else if packet[0] / 16 == 6 {
        if packet.len() < 40 {
            None
        } else {
            Some(ipv6_info(packet))
        }
    } else {
        None
    }
}

fn word_at(packet: &[u8], at: usize) -> (w: u16)
    requires
        at + 1 < packet@.len(),
    ensures
        w == be16(packet@[at as int], packet@[at + 1]),
{
    let size: usize = packet.len();
    packet[at] as u16 * 256 + packet[at + 1] as u16
}

fn ports_at(packet: &[u8], offset: usize) -> (ports: Option<(u16, u16)>)
    requires
        offset <= packet@.len(),
    ensures
        ports == ports_from(packet@, offset as int),
{
    if packet.len() - offset < 4 {
        return None;
    }
    Some((word_at(packet, offset), word_at(packet, offset + 2)))
}

/// Reads the header of an IP packet.
pub fn inspect(packet: &[u8]) -> (info: Option<Info>)
    ensures
        info == inspected(packet@),
{
    if packet.len() == 0 {
        return None;
    }
    let version: u8 = packet[0] / 16;
    if version == 4 {
        let ihl: usize = (packet[0] % 16) as usize * 4;
        if ihl < 20 || packet.len() < ihl {
            return None;
        }
        let proto = Proto::from_number(packet[9]);
        let fragment_offset: u16 = word_at(packet, 6) % 0x2000;
        let ports = if (proto == Proto::Tcp || proto == Proto::Udp) && fragment_offset == 0 {
            ports_at(packet, ihl)
        } else {
            None
        };
        proof {
            lemma_be_value(packet@.subrange(12, 16));
            lemma_be_value(packet@.subrange(16, 20));
            crate::bytes::lemma_pow256_8();
        }
        let src: u32 = read_be(packet, 12, 4) as u32;
        let dst: u32 = read_be(packet, 16, 4) as u32;
        Some(
            Info {
                version: 4,
                proto,
                src: Ip::V4(src),
                dst: Ip::V4(dst),
                ports,
                len: word_at(packet, 2) as usize,
            },
        )
    } else if version == 6 {
        if packet.len() < 40 {
            return None;
        }
        let proto = Proto::from_number(packet[6]);
        let ports = if proto == Proto::Tcp || proto == Proto::Udp {
            ports_at(packet, 40)
        } else {
            None
        };
        let src: u128 = read_be(packet, 8, 16);
        let dst: u128 = read_be(packet, 24, 16);
        Some(
            Info {
                version: 6,
                proto,
                src: Ip::V6(src),
                dst: Ip::V6(dst),
                ports,
                len: 40 + word_at(packet, 4) as usize,
            },
        )
    } else {
        None
    }
}

} // verus!
