//! Between a TUN device and the holes: IP packets travel as they are.
//!
//! A TCP packet gets the bucket of its flow and a number in it, and the receiver restores the
//! order inside the bucket, so that a loss in one connection does not hold up the others.
//! Everything else travels without a number and is handed on at once.

use crate::multilink::MAX_DATA_LEN;
use crate::tun::packet::{flow_bytes, fnv, inspect, inspected, Info, Proto};
use vstd::prelude::*;

verus! {

/// How many buckets the TCP flows are spread over.
pub const FLOW_BUCKETS: u32 = 16;

/// How a packet travels.
#[derive(Clone, Copy, Debug, PartialEq, Eq, Structural)]
pub enum Route {
    /// TCP: with number `seq` in bucket `flow`.
    Ordered { flow: u32, seq: u64 },
    /// Everything else: without a number.
    Plain,
    /// Not at all: it is no IP packet, or too long for a hole.
    Drop,
}

/// The numbers of the buckets, for one direction and one sender.
#[derive(Clone, Copy)]
pub struct Sequencer {
    next: [u64; 16],
}

impl View for Sequencer {
    type V = Seq<u64>;

    closed spec fn view(&self) -> Seq<u64> {
        self.next@
    }
}

/// The bucket of a flow.
pub open spec fn bucket(info: Info) -> u32 {
    fnv(flow_bytes(info.proto, info.src, info.dst, info.ports)) % FLOW_BUCKETS
}

/// The bucket of a packet that gets a number.
pub open spec fn numbered(len: nat, info: Option<Info>) -> Option<u32> {
    match info {
        Some(i) => if len <= MAX_DATA_LEN && i.proto == Proto::Tcp {
            Some(bucket(i))
        } else {
            None
        },
        None => None,
    }
}

/// How a packet of a length travels.
pub open spec fn routed(next: Seq<u64>, len: nat, info: Option<Info>) -> Route {
    match info {
        Some(i) => if len > MAX_DATA_LEN {
            Route::Drop
        } else if i.proto == Proto::Tcp {
            Route::Ordered { flow: bucket(i), seq: next[bucket(i) as int] }
        } else {
            Route::Plain
        },
        None => Route::Drop,
    }
}

/// The numbers after a packet. They start over after 64 bits.
pub open spec fn advanced(next: Seq<u64>, len: nat, info: Option<Info>) -> Seq<u64> {
    match numbered(len, info) {
        Some(flow) => next.update(flow as int, next[flow as int].wrapping_add(1)),
        None => next,
    }
}

impl Sequencer {
    /// Takes a packet of a length that was inspected.
    pub fn route_inspected(&mut self, len: usize, info: Option<&Info>) -> (route: Route)
        ensures
            route == routed(
                old(self)@,
                len as nat,
                match info {
                    Some(i) => Some(*i),
                    None => None,
                },
            ),
            final(self)@ == advanced(
                old(self)@,
                len as nat,
                match info {
                    Some(i) => Some(*i),
                    None => None,
                },
            ),
    {
        if len > MAX_DATA_LEN {
            return Route::Drop;
        }
        match info {
            Some(info) => {
                if info.proto == Proto::Tcp {
                    let flow: u32 = info.flow_hash() % FLOW_BUCKETS;
                    let seq: u64 = self.next[flow as usize];
                    self.next[flow as usize] = seq.wrapping_add(1);
                    Route::Ordered { flow, seq }
                } else {
                    Route::Plain
                }
            },
            None => Route::Drop,
        }
    }

    /// Takes a packet.
    pub fn route(&mut self, packet: &[u8]) -> (route: Route)
        ensures
            route == routed(old(self)@, packet@.len(), inspected(packet@)),
            final(self)@ == advanced(old(self)@, packet@.len(), inspected(packet@)),
    {
        match inspect(packet) {
            Some(info) => self.route_inspected(packet.len(), Some(&info)),
            None => Route::Drop,
        }
    }
}

impl Default for Sequencer {
    fn default() -> (sequencer: Self)
        ensures
            sequencer@ == Seq::new(16, |i: int| 0u64),
    {
        let sequencer = Sequencer { next: [0u64; 16] };
        assert(sequencer@ =~= Seq::new(16, |i: int| 0u64));
        sequencer
    }
}

/// The counters of a bridge. They start over after 32 bits.
#[derive(Clone, Copy, Debug, PartialEq, Eq, Structural)]
pub struct BridgeStats {
    pub to_peer: u32,
    pub ordered: u32,
    pub from_peer: u32,
    pub dropped: u32,
}

impl BridgeStats {
    /// To the peer, with a number among them, from the peer, lost.
    pub fn snapshot(&self) -> (stats: (u32, u32, u32, u32))
        ensures
            stats == (self.to_peer, self.ordered, self.from_peer, self.dropped),
    {
        (self.to_peer, self.ordered, self.from_peer, self.dropped)
    }

    /// A packet of the device was sent to the peer, or not; `sent` does not matter for one that
    /// does not travel.
    pub fn note_up(&mut self, route: Route, sent: bool)
        ensures
            *final(self) == (BridgeStats {
                to_peer: if !(route is Drop) && sent {
                    old(self).to_peer.wrapping_add(1)
                } else {
                    old(self).to_peer
                },
                ordered: if route is Ordered {
                    old(self).ordered.wrapping_add(1)
                } else {
                    old(self).ordered
                },
                from_peer: old(self).from_peer,
                dropped: if route is Drop || !sent {
                    old(self).dropped.wrapping_add(1)
                } else {
                    old(self).dropped
                },
            }),
    {
        match route {
            Route::Ordered { .. } => {
                self.ordered = self.ordered.wrapping_add(1);
            },
            Route::Plain => {},
            Route::Drop => {
                self.dropped = self.dropped.wrapping_add(1);
                return;
            },
        }
        if sent {
            self.to_peer = self.to_peer.wrapping_add(1);
        } else {
            self.dropped = self.dropped.wrapping_add(1);
        }
    }

    /// A packet of the peer was written to the device, or not.
    pub fn note_down(&mut self, written: bool)
        ensures
            *final(self) == if written {
                BridgeStats { from_peer: old(self).from_peer.wrapping_add(1), ..*old(self) }
            } else {
                BridgeStats { dropped: old(self).dropped.wrapping_add(1), ..*old(self) }
            },
    {
        if written {
            self.from_peer = self.from_peer.wrapping_add(1);
        } else {
            self.dropped = self.dropped.wrapping_add(1);
        }
    }
}

impl Default for BridgeStats {
    fn default() -> (stats: Self)
        ensures
            stats == (BridgeStats { to_peer: 0, ordered: 0, from_peer: 0, dropped: 0 }),
    {
        BridgeStats { to_peer: 0, ordered: 0, from_peer: 0, dropped: 0 }
    }
}

/// The numbers after several packets.
pub open spec fn advanced_all(next: Seq<u64>, packets: Seq<Seq<u8>>) -> Seq<u64>
    decreases packets.len(),
{
    if packets.len() == 0 {
        next
    } else {
        advanced(
            advanced_all(next, packets.drop_last()),
            packets.last().len(),
            inspected(packets.last()),
        )
    }
}

/// How many of the packets get a number in a bucket.
pub open spec fn numbered_in(packets: Seq<Seq<u8>>, flow: u32) -> nat
    decreases packets.len(),
{
    if packets.len() == 0 {
        0
    } else {
        numbered_in(packets.drop_last(), flow) + if numbered(
            packets.last().len(),
            inspected(packets.last()),
        ) == Some(flow) {
            1nat
        } else {
            0nat
        }
    }
}

/// The packets of a bucket are numbered one after the other from zero, modulo 64 bits, whatever
/// travels in between.
pub proof fn law_flows_are_numbered_separately(packets: Seq<Seq<u8>>, flow: u32)
    requires
        flow < FLOW_BUCKETS,
    ensures
        advanced_all(Seq::new(16, |i: int| 0u64), packets).len() == 16,
        advanced_all(Seq::new(16, |i: int| 0u64), packets)[flow as int] == numbered_in(
            packets,
            flow,
        ) % 0x1_0000_0000_0000_0000,
    decreases packets.len(),
{
    if packets.len() > 0 {
        law_flows_are_numbered_separately(packets.drop_last(), flow);
    }
}

} // verus!
