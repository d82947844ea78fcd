//! Addresses.

use crate::text::{
    all_digits, chars, decimal, digits, digits_value, lemma_decimal, lemma_digits_hold_no,
    first_at, lemma_parts_join, lemma_parts_one, number_in, parse_number, parts, push_decimal, split,
    split_once, trim, trimmed, views,
};
use crate::subnet::{size_of_subnet, subnet_size};
use vstd::prelude::*;
use vstd::string::*;

verus! {

/// An address: a number of 4 or of 16 bytes, most significant first.
#[derive(Clone, Copy, Debug, PartialEq, Eq, Structural)]
pub enum Ip {
    V4(u32),
    V6(u128),
}

/// An address and a UDP port. With an IPv6 address there are two numbers more, which tell
/// endpoints apart like the address and the port do; they are zero where they are not given, and
/// with an IPv4 address.
#[derive(Clone, Copy, Debug, PartialEq, Eq, Structural)]
pub struct Endpoint {
    pub ip: Ip,
    pub port: u16,
    pub flow_info: u32,
    /// The scope in which the address is meant: a network interface.
    pub scope_id: u32,
}

/// The endpoint at an address and a port alone.
pub open spec fn endpoint_at(ip: Ip, port: u16) -> Endpoint {
    Endpoint { ip, port, flow_info: 0, scope_id: 0 }
}

impl Endpoint {
    /// The endpoint at an address and a port alone.
    pub fn new(ip: Ip, port: u16) -> (endpoint: Endpoint)
        ensures
            endpoint == endpoint_at(ip, port),
    {
        Endpoint { ip, port, flow_info: 0, scope_id: 0 }
    }

    /// The endpoint without what its address and port do not say.
    pub open spec fn plain(self) -> Endpoint {
        endpoint_at(self.ip, self.port)
    }
}

/// An IPv4 address from its four numbers.
pub fn ipv4(a: u8, b: u8, c: u8, d: u8) -> (ip: u32)
    ensures
        ip == a * 0x100_0000 + b * 0x1_0000 + c * 0x100 + d,
{
    a as u32 * 0x100_0000 + b as u32 * 0x1_0000 + c as u32 * 0x100 + d as u32
}

/// The number from 0 to 255 that the text denotes: at most three digits, no zero before others.
pub open spec fn octet_in(s: Seq<char>) -> Option<u8> {
    if 1 <= s.len() <= 3 && all_digits(s) && (s.len() == 1 || s[0] != '0') && digits_value(s) <= 255 {
        Some(digits_value(s) as u8)
    } else {
        None
    }
}

/// The IPv4 address that the text denotes: four numbers with dots between them.
pub open spec fn ipv4_in(s: Seq<char>) -> Option<u32> {
    let ps = parts(s, '.');
    if ps.len() == 4 {
        match (octet_in(ps[0]), octet_in(ps[1]), octet_in(ps[2]), octet_in(ps[3])) {
            (Some(a), Some(b), Some(c), Some(d)) => Some(
                (a * 0x100_0000 + b * 0x1_0000 + c * 0x100 + d) as u32,
            ),
            _ => None,
        }
    } else {
        None
    }
}

fn octet(s: &str) -> (n: Option<u8>)
    ensures
        n == octet_in(s@),
{
    let text: Vec<char> = chars(s);
    let len: usize = text.len();
    if len == 0 || len > 3 || (len > 1 && text[0] == '0') {
        return None;
    }
    assert(text@.subrange(0, len as int) =~= s@);
    match digits(&text, 0, len, 255) {
        Some(v) => Some(v as u8),
        None => None,
    }
}

/// Reads an IPv4 address.
pub fn parse_ipv4(s: &str) -> (ip: Option<u32>)
    ensures
        ip == ipv4_in(s@),
{
    let ps: Vec<&str> = split(s, '.');
    proof {
        assert(views(ps@).len() == ps@.len());
    }
    if ps.len() != 4 {
        return None;
    }
    assert(views(ps@)[0] == ps@[0]@ && views(ps@)[1] == ps@[1]@ && views(ps@)[2] == ps@[2]@ && views(ps@)[3]
        == ps@[3]@);
    match (octet(ps[0]), octet(ps[1]), octet(ps[2]), octet(ps[3])) {
        (Some(a), Some(b), Some(c), Some(d)) => Some(ipv4(a, b, c, d)),
        _ => None,
    }
}

/// An IPv4 address as text.
pub open spec fn ipv4_text(ip: u32) -> Seq<char> {
    decimal((ip / 0x100_0000) as nat) + "."@ + decimal((ip / 0x1_0000 % 256) as nat) + "."@ + decimal(
        (ip / 0x100 % 256) as nat,
    ) + "."@ + decimal((ip % 256) as nat)
}

/// Appends an IPv4 address.
pub fn push_ipv4(out: &mut String, ip: u32)
    ensures
        final(out)@ == old(out)@ + ipv4_text(ip),
{
    push_decimal(out, (ip / 0x100_0000) as u64);
    out.append(".");
    push_decimal(out, (ip / 0x1_0000 % 256) as u64);
    out.append(".");
    push_decimal(out, (ip / 0x100 % 256) as u64);
    out.append(".");
    push_decimal(out, (ip % 256) as u64);
    assert(out@ =~= old(out)@ + ipv4_text(ip));
}

/// An octet as text is read back.
proof fn lemma_octet(n: u8)
    ensures
        octet_in(decimal(n as nat)) == Some(n),
        forall|i: int| 0 <= i < decimal(n as nat).len() ==> decimal(n as nat)[i] != '.',
{
    lemma_decimal(n as nat);
    lemma_digits_hold_no(decimal(n as nat), '.');
}

/// An IPv4 address as text is read back as the same address.
pub proof fn law_ipv4_text_is_read_back(ip: u32)
    ensures
        ipv4_in(ipv4_text(ip)) == Some(ip),
{
    let (a, b, c, d) = ((ip / 0x100_0000) as u8, (ip / 0x1_0000 % 256) as u8, (ip / 0x100 % 256) as u8, (ip % 256) as u8);
    lemma_octet(a);
    lemma_octet(b);
    lemma_octet(c);
    lemma_octet(d);
    let (p, q, r, s) = (decimal(a as nat), decimal(b as nat), decimal(c as nat), decimal(d as nat));
    lemma_four_parts(p, q, r, s);
    assert(ip == a * 0x100_0000 + b * 0x1_0000 + c * 0x100 + d);
}

spec fn no_dot(s: Seq<char>) -> bool {
    forall|i: int| 0 <= i < s.len() ==> s[i] != '.'
}

/// Four texts without dots, with dots between them.
proof fn lemma_four_parts(p: Seq<char>, q: Seq<char>, r: Seq<char>, s: Seq<char>)
    requires
        no_dot(p),
        no_dot(q),
        no_dot(r),
        no_dot(s),
    ensures
        parts(p + "."@ + q + "."@ + r + "."@ + s, '.') == seq![p, q, r, s],
{
    reveal_strlit(".");
    assert("."@ =~= seq!['.']);
    let tail = r + seq!['.'] + s;
    let more = q + seq!['.'] + tail;
    lemma_parts_one(s, '.');
    lemma_parts_join(r, '.', s);
    lemma_parts_join(q, '.', tail);
    lemma_parts_join(p, '.', more);
    assert(p + "."@ + q + "."@ + r + "."@ + s =~= p + seq!['.'] + more);
    assert(seq![p] + (seq![q] + (seq![r] + seq![s])) =~= seq![p, q, r, s]);
}

/// The address and the prefix that the text denotes: `ip/prefix`.
pub open spec fn cidr_in(s: Seq<char>) -> Option<(u32, u8)> {
    let t = trimmed(s);
    let n = first_at(t, '/');
    if n < t.len() {
        match (number_in(t.skip(n + 1), 32), ipv4_in(t.take(n))) {
            (Some(prefix), Some(ip)) => Some((ip, prefix as u8)),
            _ => None,
        }
    } else {
        None
    }
}

/// Reads the address of an interface, `ip/prefix`.
pub fn parse_cidr(value: &str) -> (cidr: Option<(u32, u8)>)
    ensures
        cidr == cidr_in(value@),
{
    match split_once(trim(value), '/') {
        Some((ip, prefix)) => match (parse_number(prefix, 32), parse_ipv4(ip)) {
            (Some(prefix), Some(ip)) => Some((ip, prefix as u8)),
            _ => None,
        },
        None => None,
    }
}

/// The network mask of a prefix: its first `prefix` bits are set.
pub fn prefix_mask(prefix: u8) -> (mask: u32)
    ensures
        mask == if prefix >= 32 {
            u32::MAX as int
        } else {
            0x1_0000_0000 - subnet_size(prefix)
        },
{
    if prefix >= 32 {
        return u32::MAX;
    }
    let size: u64 = size_of_subnet(prefix);
    (0x1_0000_0000 - size) as u32
}

/// Longest name of an interface, with the zero at its end.
pub const IFNAMSIZ: usize = 16;

/// The name can be that of an interface: it fits, and holds no zero.
pub fn is_interface_name(name: &str) -> (is: bool)
    ensures
        is == (name.spec_bytes().len() < IFNAMSIZ && !name.spec_bytes().contains(0)),
{
    let bytes = name.as_bytes();
    if bytes.len() >= IFNAMSIZ {
        return false;
    }
    let mut i: usize = 0;
    while i < bytes.len()
        invariant
            i <= bytes@.len(),
            bytes@ == name.spec_bytes(),
            forall|k: int| 0 <= k < i ==> bytes@[k] != 0,
        decreases bytes@.len() - i,
    {
        if bytes[i] == 0 {
            assert(bytes@.contains(bytes@[i as int]));
            return false;
        }
        i += 1;
    }
    true
}

} // verus!
