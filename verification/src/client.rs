//! The client of a phone: its state as it is shown, and the local bridge to WireGuard.

use crate::multilink::{MultiLinkOptions, MAX_DATA_LEN};
use crate::net::Endpoint;
use crate::reorder::lateness::MILLI;
use crate::text::{decimal, push_decimal};
use vstd::prelude::*;

verus! {

/// The state of the client as it is shown.
#[derive(Clone, Copy, Debug, PartialEq, Eq, Structural)]
pub struct Status {
    pub live_holes: usize,
    pub tun: bool,
    pub to_peer: u32,
    pub from_peer: u32,
    pub dropped: u32,
}

/// The state as a line of text.
pub open spec fn status_text(s: Status) -> Seq<char> {
    "дыры "@ + decimal(s.live_holes as nat) + "/10, TUN "@ + (if s.tun {
        "подключён"@
    } else {
        "нет"@
    }) + ", отправлено "@ + decimal(s.to_peer as nat) + ", получено "@ + decimal(
        s.from_peer as nat,
    ) + ", потеряно "@ + decimal(s.dropped as nat)
}

impl Status {
    /// The state as a line of text.
    pub fn text(&self) -> (text: String)
        ensures
            text@ == status_text(*self),
    {
        let mut text: String = "дыры ".to_owned();
        push_decimal(&mut text, self.live_holes as u64);
        text.append("/10, TUN ");
        if self.tun {
            text.append("подключён");
        } else {
            text.append("нет");
        }
        text.append(", отправлено ");
        push_decimal(&mut text, self.to_peer as u64);
        text.append(", получено ");
        push_decimal(&mut text, self.from_peer as u64);
        text.append(", потеряно ");
        push_decimal(&mut text, self.dropped as u64);
        assert(text@ =~= status_text(*self));
        text
    }
}

/// Puts the state together. The counters are those of the bridge to the TUN device (sent, numbered,
/// received, lost), if one is attached.
pub fn status(live_holes: usize, bridge: Option<(u32, u32, u32, u32)>) -> (status: Status)
    ensures
        status.live_holes == live_holes,
        status.tun == (bridge is Some),
        (status.to_peer, status.from_peer, status.dropped) == match bridge {
            Some((to_peer, _, from_peer, dropped)) => (to_peer, from_peer, dropped),
            None => (0u32, 0u32, 0u32),
        },
{
    match bridge {
        Some((to_peer, _, from_peer, dropped)) => Status {
            live_holes,
            tun: true,
            to_peer,
            from_peer,
            dropped,
        },
        None => Status { live_holes, tun: false, to_peer: 0, from_peer: 0, dropped: 0 },
    }
}

/// The options of the holes of a client.
pub fn options(reorder_wait_ms: u32, data_holes: u8) -> (options: MultiLinkOptions)
    ensures
        options == (MultiLinkOptions {
            reorder_wait: (reorder_wait_ms * MILLI) as u64,
            data_holes,
            local_port_base: 0,
            reorder_clients: true,
        }),
{
    MultiLinkOptions {
        reorder_wait: reorder_wait_ms as u64 * MILLI,
        data_holes,
        local_port_base: 0,
        reorder_clients: true,
    }
}

/// The counters of the local bridge. They start over after 32 bits.
#[derive(Clone, Copy, Debug, PartialEq, Eq, Structural)]
pub struct BridgeStats {
    pub to_router: u32,
    pub from_router: u32,
    pub dropped: u32,
}

impl BridgeStats {
    /// To the router, from the router, lost.
    pub fn snapshot(&self) -> (stats: (u32, u32, u32))
        ensures
            stats == (self.to_router, self.from_router, self.dropped),
    {
        (self.to_router, self.from_router, self.dropped)
    }
}

impl Default for BridgeStats {
    fn default() -> (stats: Self)
        ensures
            stats == (BridgeStats { to_router: 0, from_router: 0, dropped: 0 }),
    {
        BridgeStats { to_router: 0, from_router: 0, dropped: 0 }
    }
}

/// The bridge between the local WireGuard and the holes: a datagram goes to the router as it is,
/// and what comes from the router goes to where WireGuard wrote from last.
pub struct LocalBridge {
    /// Where WireGuard wrote from last.
    pub wireguard: Option<Endpoint>,
    pub stats: BridgeStats,
}

impl LocalBridge {
    pub fn new() -> (bridge: Self)
        ensures
            bridge.wireguard is None,
            bridge.stats == (BridgeStats { to_router: 0, from_router: 0, dropped: 0 }),
    {
        LocalBridge { wireguard: None, stats: BridgeStats::default() }
    }

    /// A datagram of WireGuard: whether it is to be sent to the router. One that is too long for
    /// a hole is lost.
    pub fn datagram(&mut self, from: Endpoint, len: usize) -> (send: bool)
        ensures
            send == (len <= MAX_DATA_LEN),
            final(self).wireguard == Some(from),
            final(self).stats == if send {
                old(self).stats
            } else {
                BridgeStats { dropped: old(self).stats.dropped.wrapping_add(1), ..old(self).stats }
            },
    {
        self.wireguard = Some(from);
        if len > MAX_DATA_LEN {
            self.stats.dropped = self.stats.dropped.wrapping_add(1);
            return false;
        }
        true
    }

    /// The datagram was sent to the router, or could not be.
    pub fn note_up(&mut self, sent: bool)
        ensures
            final(self).wireguard == old(self).wireguard,
            final(self).stats == if sent {
                BridgeStats {
                    to_router: old(self).stats.to_router.wrapping_add(1),
                    ..old(self).stats
                }
            } else {
                BridgeStats { dropped: old(self).stats.dropped.wrapping_add(1), ..old(self).stats }
            },
    {
        if sent {
            self.stats.to_router = self.stats.to_router.wrapping_add(1);
        } else {
            self.stats.dropped = self.stats.dropped.wrapping_add(1);
        }
    }

    /// A packet of the router: where it is to be sent. Before WireGuard has written anything it
    /// is lost.
    pub fn target(&mut self) -> (target: Option<Endpoint>)
        ensures
            target == old(self).wireguard,
            final(self).wireguard == old(self).wireguard,
            final(self).stats == if target is Some {
                old(self).stats
            } else {
                BridgeStats { dropped: old(self).stats.dropped.wrapping_add(1), ..old(self).stats }
            },
    {
        if self.wireguard.is_none() {
            self.stats.dropped = self.stats.dropped.wrapping_add(1);
        }
        self.wireguard
    }

    /// The packet was sent to WireGuard, or could not be.
    pub fn note_down(&mut self, sent: bool)
        ensures
            final(self).wireguard == old(self).wireguard,
            final(self).stats == if sent {
                BridgeStats {
                    from_router: old(self).stats.from_router.wrapping_add(1),
                    ..old(self).stats
                }
            } else {
                BridgeStats { dropped: old(self).stats.dropped.wrapping_add(1), ..old(self).stats }
            },
    {
        if sent {
            self.stats.from_router = self.stats.from_router.wrapping_add(1);
        } else {
            self.stats.dropped = self.stats.dropped.wrapping_add(1);
        }
    }
}

/// A datagram of WireGuard goes into the holes if it has at most 1400 bytes, and is lost else.
/// Either way answers go from then on to where it came from.
pub proof fn law_answers_go_to_the_last_sender(from: Endpoint, len: usize)
    ensures
        forall|b: &mut LocalBridge, send: bool| #[trigger]
            call_ensures(LocalBridge::datagram, (b, from, len), send) ==> {
                &&& send <==> len <= 1400
                &&& final(b).wireguard == Some(from)
                &&& send ==> final(b).stats == (*b).stats
                &&& !send && (*b).stats.dropped < u32::MAX ==> final(b).stats.dropped == (
                *b).stats.dropped + 1 && final(b).stats.to_router == (*b).stats.to_router
                    && final(b).stats.from_router == (*b).stats.from_router
            },
        forall|b: &mut LocalBridge, target: Option<Endpoint>| #[trigger]
            call_ensures(LocalBridge::target, (b,), target) ==> target == (*b).wireguard
                && final(b).wireguard == (*b).wireguard,
{
}

/// Every packet is counted once: as sent to the router or as lost on the way up, as handed to
/// WireGuard or as lost on the way down, and as lost, where WireGuard has not written yet.
pub proof fn law_every_bridged_packet_is_counted_once()
    ensures
        forall|b: &mut LocalBridge, sent: bool| #[trigger]
            call_ensures(LocalBridge::note_up, (b, sent), ()) && (*b).stats.to_router < u32::MAX && (
            *b).stats.dropped < u32::MAX ==> {
                &&& final(b).stats.to_router + final(b).stats.dropped == (*b).stats.to_router + (
                *b).stats.dropped + 1
                &&& final(b).stats.to_router > (*b).stats.to_router <==> sent
                &&& final(b).stats.from_router == (*b).stats.from_router
            },
        forall|b: &mut LocalBridge, sent: bool| #[trigger]
            call_ensures(LocalBridge::note_down, (b, sent), ()) && (*b).stats.from_router < u32::MAX
                && (*b).stats.dropped < u32::MAX ==> {
                &&& final(b).stats.from_router + final(b).stats.dropped == (*b).stats.from_router + (
                *b).stats.dropped + 1
                &&& final(b).stats.from_router > (*b).stats.from_router <==> sent
                &&& final(b).stats.to_router == (*b).stats.to_router
            },
        forall|b: &mut LocalBridge, target: Option<Endpoint>| #[trigger]
            call_ensures(LocalBridge::target, (b,), target) && (*b).stats.dropped < u32::MAX
                ==> final(b).stats.dropped == (*b).stats.dropped + if target is None {
                1int
            } else {
                0int
            },
{
}

/// What is shown of a client are the live holes and, while a device is attached, its counters.
pub proof fn law_status_shows_the_bridge(
    live_holes: usize,
    bridge: Option<(u32, u32, u32, u32)>,
    status: Status,
)
    requires
        call_ensures(self::status, (live_holes, bridge), status),
    ensures
        status.live_holes == live_holes,
        bridge is None ==> !status.tun && status.to_peer == 0 && status.from_peer == 0
            && status.dropped == 0,
        bridge matches Some(b) ==> status.tun && status.to_peer == b.0 && status.from_peer == b.2
            && status.dropped == b.3,
{
}

/// A client waits for missing packets as long as it is told, in milliseconds, restores the order
/// of everything, and takes any local ports.
pub proof fn law_a_client_follows_its_settings(
    reorder_wait_ms: u32,
    data_holes: u8,
    options: MultiLinkOptions,
)
    requires
        call_ensures(self::options, (reorder_wait_ms, data_holes), options),
    ensures
        options.reorder_wait == reorder_wait_ms as int * 1_000_000,
        options.data_holes == data_holes,
        options.reorder_clients,
        options.local_port_base == 0,
{
}

/// A status as text: the holes out of ten, whether the device is there, and the three counters.
pub proof fn law_the_status_is_shown(status: Status, text: String)
    requires
        call_ensures(Status::text, (&status,), text),
    ensures
        text@ == "дыры "@ + decimal(status.live_holes as nat) + "/10, TUN "@ + (if status.tun {
            "подключён"@
        } else {
            "нет"@
        }) + ", отправлено "@ + decimal(status.to_peer as nat) + ", получено "@ + decimal(
            status.from_peer as nat,
        ) + ", потеряно "@ + decimal(status.dropped as nat),
{
}

/// A bridge starts without an address, and shows what it has counted.
pub proof fn law_a_bridge_shows_what_it_counted(
    start: LocalBridge,
    stats: BridgeStats,
    shown: (u32, u32, u32),
)
    requires
        call_ensures(LocalBridge::new, (), start),
        call_ensures(BridgeStats::snapshot, (&stats,), shown),
    ensures
        start.wireguard is None,
        start.stats.to_router == 0 && start.stats.from_router == 0 && start.stats.dropped == 0,
        shown.0 == stats.to_router && shown.1 == stats.from_router && shown.2 == stats.dropped,
{
}

} // verus!
