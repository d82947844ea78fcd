//! The relay of a router: packets between the holes to a server and the holes to every phone.
//!
//! A phone sends plain data; the router wraps it with the number of the phone and sends it to the
//! server. The server answers with the same number, by which the router finds the phone.

use crate::multilink::Incoming;
use vstd::prelude::*;

verus! {

/// The counters of one direction. They start over after 32 bits.
#[derive(Clone, Copy, Debug, PartialEq, Eq, Structural)]
pub struct DirectionStats {
    pub forwarded: u32,
    pub dropped: u32,
}

impl DirectionStats {
    pub fn snapshot(&self) -> (stats: (u32, u32))
        ensures
            stats == (self.forwarded, self.dropped),
    {
        (self.forwarded, self.dropped)
    }

    /// A packet was sent on, or was lost.
    pub fn note(&mut self, sent: bool)
        ensures
            *final(self) == if sent {
                DirectionStats {
                    forwarded: old(self).forwarded.wrapping_add(1),
                    dropped: old(self).dropped,
                }
            } else {
                DirectionStats {
                    forwarded: old(self).forwarded,
                    dropped: old(self).dropped.wrapping_add(1),
                }
            },
    {
        if sent {
            self.forwarded = self.forwarded.wrapping_add(1);
        } else {
            self.dropped = self.dropped.wrapping_add(1);
        }
    }
}

impl Default for DirectionStats {
    fn default() -> (stats: Self)
        ensures
            stats == (DirectionStats { forwarded: 0, dropped: 0 }),
    {
        DirectionStats { forwarded: 0, dropped: 0 }
    }
}

/// Where a packet from the server goes.
#[derive(Clone, Copy, Debug, PartialEq, Eq, Structural)]
pub enum ClientRoute {
    /// To this client.
    To(u8),
    /// Nowhere: it names no client.
    NoClient,
    /// Nowhere: it names a client that is not known.
    Unknown(u8),
}

/// Finds the client that a packet from the server belongs to.
pub fn route_by_client(packet: &Incoming, clients: &Vec<u8>) -> (route: ClientRoute)
    ensures
        route == match packet.wrapped {
            None => ClientRoute::NoClient,
            Some(w) => if clients@.contains(w.client_id) {
                ClientRoute::To(w.client_id)
            } else {
                ClientRoute::Unknown(w.client_id)
            },
        },
{
    let client_id: u8 = match packet.wrapped {
        Some(wrapped) => wrapped.client_id,
        None => {
            return ClientRoute::NoClient;
        },
    };
    let mut i: usize = 0;
    while i < clients.len()
        invariant
            i <= clients@.len(),
            packet.wrapped is Some,
            packet.wrapped->0.client_id == client_id,
            forall|k: int| 0 <= k < i ==> clients@[k] != client_id,
        decreases clients@.len() - i,
    {
        if clients[i] == client_id {
            assert(clients@[i as int] == client_id);
            return ClientRoute::To(client_id);
        }
        i += 1;
    }
    ClientRoute::Unknown(client_id)
}

/// Takes a packet from the server and the answer of whoever sends to its client: it is counted
/// as sent on only if it has a known client and was sent. `sent` does not matter for the others.
pub fn count_routed(stats: &mut DirectionStats, route: ClientRoute, sent: bool)
    ensures
        *final(stats) == if route is To && sent {
            DirectionStats {
                forwarded: old(stats).forwarded.wrapping_add(1),
                dropped: old(stats).dropped,
            }
        } else {
            DirectionStats {
                forwarded: old(stats).forwarded,
                dropped: old(stats).dropped.wrapping_add(1),
            }
        },
{
    match route {
        ClientRoute::To(_) => stats.note(sent),
        _ => stats.note(false),
    }
}

/// Where a packet of the server goes at a router that relays for phones, and how.
#[derive(Clone, Copy, Debug, PartialEq, Eq)]
pub enum PhoneRoute {
    /// It is of no phone: it is the router's own.
    Own,
    /// It is of a phone that is not known, and is lost.
    Unknown(u8),
    /// To this phone, with the number in its flow that it came with, or plain.
    To(u8, Option<(u32, u64)>),
}

/// Finds the phone that a packet of the server belongs to. The numbers that the server gave stay:
/// the phone restores the order.
pub fn route_to_phone(packet: &Incoming, clients: &Vec<u8>) -> (route: PhoneRoute)
    ensures
        route == match packet.wrapped {
            None => PhoneRoute::Own,
            Some(w) => if clients@.contains(w.client_id) {
                PhoneRoute::To(w.client_id, packet.order)
            } else {
                PhoneRoute::Unknown(w.client_id)
            },
        },
{
    match route_by_client(packet, clients) {
        ClientRoute::To(client_id) => PhoneRoute::To(client_id, packet.order),
        ClientRoute::NoClient => PhoneRoute::Own,
        ClientRoute::Unknown(client_id) => PhoneRoute::Unknown(client_id),
    }
}

/// A packet of a phone is to be sent on to the server: it is not wrapped already.
pub fn from_phone(packet: &Incoming) -> (forward: bool)
    ensures
        forward == (packet.wrapped is None),
{
    packet.wrapped.is_none()
}

/// A packet of the server goes to the client that it is wrapped for, if that one is known; it goes
/// nowhere, where it is wrapped for none or for another one.
pub proof fn law_packets_go_to_the_client_they_name(
    packet: &Incoming,
    clients: &Vec<u8>,
    route: ClientRoute,
)
    requires
        call_ensures(route_by_client, (packet, clients), route),
    ensures
        packet.wrapped is None ==> route is NoClient,
        packet.wrapped matches Some(w) ==> {
            &&& clients@.contains(w.client_id) ==> route == ClientRoute::To(w.client_id)
            &&& !clients@.contains(w.client_id) ==> route == ClientRoute::Unknown(w.client_id)
        },
{
}

/// A packet of the server goes to the phone that it is wrapped for, with the very number in its
/// flow that it came with; one that is not wrapped is the router's own.
pub proof fn law_packets_go_to_the_phone_they_name(
    packet: &Incoming,
    clients: &Vec<u8>,
    route: PhoneRoute,
)
    requires
        call_ensures(route_to_phone, (packet, clients), route),
    ensures
        packet.wrapped is None ==> route is Own,
        packet.wrapped matches Some(w) ==> {
            &&& clients@.contains(w.client_id) ==> route == PhoneRoute::To(w.client_id, packet.order)
            &&& !clients@.contains(w.client_id) ==> route == PhoneRoute::Unknown(w.client_id)
        },
{
}

/// Of what a phone sends all that is not wrapped already goes on to the server.
pub proof fn law_what_a_phone_sends_goes_on(packet: &Incoming, forward: bool)
    requires
        call_ensures(from_phone, (packet,), forward),
    ensures
        forward <==> packet.wrapped is None,
{
}

/// Every packet is counted once, as passed on or as lost.
pub proof fn law_every_relayed_packet_is_counted_once()
    ensures
        forall|s: &mut DirectionStats, sent: bool| #[trigger]
            call_ensures(DirectionStats::note, (s, sent), ()) && (*s).forwarded < u32::MAX && (
            *s).dropped < u32::MAX ==> {
                &&& final(s).forwarded + final(s).dropped == (*s).forwarded + (*s).dropped + 1
                &&& final(s).forwarded > (*s).forwarded <==> sent
            },
        forall|s: &mut DirectionStats, route: ClientRoute, sent: bool| #[trigger]
            call_ensures(count_routed, (s, route, sent), ()) && (*s).forwarded < u32::MAX && (
            *s).dropped < u32::MAX ==> {
                &&& final(s).forwarded + final(s).dropped == (*s).forwarded + (*s).dropped + 1
                &&& final(s).forwarded > (*s).forwarded <==> sent && route is To
            },
{
}

} // verus!
