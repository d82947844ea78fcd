//! Texts that denote addresses. IPv4 addresses are read here; other texts are read where they come
//! from, and handed in with what was read.

use crate::net::{endpoint_at, ipv4_in, parse_ipv4, Endpoint, Ip};
use crate::text::{all_digits, chars, digits, digits_value, first_at, same_text, split_once};
use vstd::prelude::*;

verus! {

/// The IPv4 address with a port that the text denotes: a colon stands between them, and the port
/// is a number of digits alone.
pub open spec fn endpoint_in(text: Seq<char>) -> Option<Endpoint> {
    let at = first_at(text, ':');
    let port = text.skip(at + 1);
    if at < text.len() && port.len() > 0 && all_digits(port) && digits_value(port) <= u16::MAX {
        match ipv4_in(text.take(at)) {
            Some(ip) => Some(endpoint_at(Ip::V4(ip), digits_value(port) as u16)),
            None => None,
        }
    } else {
        None
    }
}

/// Reads an IPv4 address with a port.
pub fn parse_endpoint(text: &str) -> (endpoint: Option<Endpoint>)
    ensures
        endpoint == endpoint_in(text@),
{
    match split_once(text, ':') {
        Some((left, right)) => {
            let port: Vec<char> = chars(right);
            assert(port@.subrange(0, port@.len() as int) =~= port@);
            match digits(&port, 0, port.len(), 65535) {
                Some(n) => match parse_ipv4(left) {
                    Some(ip) => Some(Endpoint::new(Ip::V4(ip), n as u16)),
                    None => None,
                },
                None => None,
            }
        },
        None => None,
    }
}

/// What texts that denote no IPv4 address denote all the same, as addresses with a port and as
/// addresses alone. A text that is not listed denotes none.
pub struct AddressTexts {
    pub endpoints: Vec<(String, Endpoint)>,
    pub ips: Vec<(String, Ip)>,
}

/// What stands beside a text in a list, at its first place.
pub open spec fn beside<T>(entries: Seq<(String, T)>, text: Seq<char>) -> Option<T>
    decreases entries.len(),
{
    if entries.len() == 0 {
        None
    } else if entries[0].0@ == text {
        Some(entries[0].1)
    } else {
        beside(entries.skip(1), text)
    }
}

/// Where a text stands in a list first.
pub fn place<T>(entries: &Vec<(String, T)>, text: &str) -> (at: Option<usize>)
    ensures
        at is Some <==> beside(entries@, text@) is Some,
        at matches Some(i) ==> i < entries@.len() && beside(entries@, text@) == Some(
            entries@[i as int].1,
        ),
{
    let mut i: usize = 0;
    assert(entries@.skip(0) =~= entries@);
    while i < entries.len()
        invariant
            i <= entries@.len(),
            beside(entries@, text@) == beside(entries@.skip(i as int), text@),
        decreases entries@.len() - i,
    {
        if same_text(entries[i].0.as_str(), text) {
            return Some(i);
        }
        assert(entries@.skip(i as int).skip(1) =~= entries@.skip(i + 1));
        i += 1;
    }
    None
}

impl AddressTexts {
    /// The address with a port that the text denotes.
    pub open spec fn denotes(&self, text: Seq<char>) -> Option<Endpoint> {
        match endpoint_in(text) {
            Some(endpoint) => Some(endpoint),
            None => beside(self.endpoints@, text),
        }
    }

    /// The address that the text denotes.
    pub open spec fn denotes_ip(&self, text: Seq<char>) -> Option<Ip> {
        match ipv4_in(text) {
            Some(ip) => Some(Ip::V4(ip)),
            None => beside(self.ips@, text),
        }
    }

    /// Reads an address with a port.
    pub fn endpoint(&self, text: &str) -> (endpoint: Option<Endpoint>)
        ensures
            endpoint == self.denotes(text@),
    {
        match parse_endpoint(text) {
            Some(endpoint) => Some(endpoint),
            None => match place(&self.endpoints, text) {
                Some(i) => Some(self.endpoints[i].1),
                None => None,
            },
        }
    }

    /// Reads an address.
    pub fn ip(&self, text: &str) -> (ip: Option<Ip>)
        ensures
            ip == self.denotes_ip(text@),
    {
        match parse_ipv4(text) {
            Some(ip) => Some(Ip::V4(ip)),
            None => match place(&self.ips, text) {
                Some(i) => Some(self.ips[i].1),
                None => None,
            },
        }
    }
}

} // verus!
