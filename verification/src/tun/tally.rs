//! Counting the packets of a device.

use crate::tun::packet::{inspect, inspected, Proto};
use vstd::prelude::*;

verus! {

/// How many packets of each protocol came. The counts start over after 32 bits.
#[derive(Clone, Copy, Debug, PartialEq, Eq, Structural)]
pub struct Tally {
    pub tcp: u32,
    pub udp: u32,
    pub ping: u32,
    pub other: u32,
}

/// The counts after a packet.
pub open spec fn counted(t: Tally, packet: Seq<u8>) -> Tally {
    match inspected(packet) {
        Some(info) => match info.proto {
            Proto::Tcp => Tally { tcp: t.tcp.wrapping_add(1), ..t },
            Proto::Udp => Tally { udp: t.udp.wrapping_add(1), ..t },
            Proto::Icmp => Tally { ping: t.ping.wrapping_add(1), ..t },
            Proto::Other(_) => Tally { other: t.other.wrapping_add(1), ..t },
        },
        None => Tally { other: t.other.wrapping_add(1), ..t },
    }
}

impl Tally {
    pub fn new() -> (tally: Self)
        ensures
            tally == (Tally { tcp: 0, udp: 0, ping: 0, other: 0 }),
    {
        Tally { tcp: 0, udp: 0, ping: 0, other: 0 }
    }

    /// Counts a packet.
    pub fn count(&mut self, packet: &[u8])
        ensures
            *final(self) == counted(*old(self), packet@),
    {
        match inspect(packet) {
            Some(info) => match info.proto {
                Proto::Tcp => {
                    self.tcp = self.tcp.wrapping_add(1);
                },
                Proto::Udp => {
                    self.udp = self.udp.wrapping_add(1);
                },
                Proto::Icmp => {
                    self.ping = self.ping.wrapping_add(1);
                },
                Proto::Other(_) => {
                    self.other = self.other.wrapping_add(1);
                },
            },
            None => {
                self.other = self.other.wrapping_add(1);
            },
        }
    }
}

} // verus!
