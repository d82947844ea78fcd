//! How a set of holes is set up for a way of finding the peer.

use super::slot::SlotMode;
use super::{slot_port, MultiLinkOptions, BOOTSTRAP_SLOT};
use crate::net::{Endpoint, Ip};
use crate::punch::PunchConfig;
use crate::vps::PortRange;
use vstd::prelude::*;

verus! {

/// How the two sides find each other.
pub enum Discovery {
    /// STUN and a broker; NATs are punched.
    StunMqtt { stun_addrs: Vec<Endpoint>, mqtt_addr: Endpoint, mqtt_ca_pem: Vec<u8> },
    /// A server with a public address: it listens at the bootstrap port, and its slots take
    /// random ports of a range.
    VpsServer { public_ip: Ip, bootstrap_port: u16, ports: PortRange },
    /// A client of such a server.
    VpsClient { server: Endpoint },
}

/// How a slot makes itself known to the peer.
#[derive(Clone, Copy, Debug, PartialEq, Eq, Structural)]
pub enum Announce {
    /// Its record is published at the broker.
    Broker,
    /// Its record is sent through all live holes.
    Holes,
    /// Its record is the answer at the bootstrap port.
    BootstrapServer,
    /// Its record is sent to the bootstrap port.
    BootstrapClient,
}

impl Announce {
    /// How often the record is sent again, in nanoseconds; nothing, where it is only kept ready.
    pub fn interval(self) -> (interval: Option<u64>)
        ensures
            interval == match self {
                Announce::Broker => Some(30_000_000_000u64),
                Announce::Holes => Some(3_000_000_000u64),
                Announce::BootstrapServer => None,
                Announce::BootstrapClient => Some(1_000_000_000u64),
            },
    {
        match self {
            Announce::Broker => Some(30_000_000_000),
            Announce::Holes => Some(3_000_000_000),
            Announce::BootstrapServer => None,
            Announce::BootstrapClient => Some(1_000_000_000),
        }
    }
}

impl Discovery {
    /// How the slots get their addresses and knock.
    pub fn mode(&self) -> (mode: SlotMode)
        ensures
            mode == match *self {
                Discovery::StunMqtt { .. } => SlotMode::Stun,
                Discovery::VpsServer { public_ip, bootstrap_port, ports } => SlotMode::VpsServer {
                    public_ip,
                    bootstrap_port,
                    ports,
                },
                Discovery::VpsClient { .. } => SlotMode::VpsClient,
            },
    {
        match self {
            Discovery::StunMqtt { .. } => SlotMode::Stun,
            Discovery::VpsServer { public_ip, bootstrap_port, ports } => SlotMode::VpsServer {
                public_ip: *public_ip,
                bootstrap_port: *bootstrap_port,
                ports: *ports,
            },
            Discovery::VpsClient { .. } => SlotMode::VpsClient,
        }
    }

    /// How the slots punch: a client of a server knocks at the very port that it was told.
    pub fn punch(&self) -> (config: PunchConfig)
        ensures
            config == (PunchConfig {
                margin: if self is VpsClient {
                    0
                } else {
                    1000
                },
                punch_interval: 50_000_000,
                keepalive_timeout: 15_000_000_000,
            }),
    {
        let mut config = PunchConfig::default();
        if let Discovery::VpsClient { .. } = self {
            config.margin = 0;
        }
        config
    }

    /// How a slot makes itself known: slot 0 outside the holes, the others through them.
    pub fn announce(&self, slot: u8) -> (announce: Announce)
        ensures
            announce == if slot != BOOTSTRAP_SLOT {
                Announce::Holes
            } else {
                match *self {
                    Discovery::StunMqtt { .. } => Announce::Broker,
                    Discovery::VpsServer { .. } => Announce::BootstrapServer,
                    Discovery::VpsClient { .. } => Announce::BootstrapClient,
                }
            },
    {
        if slot != BOOTSTRAP_SLOT {
            return Announce::Holes;
        }
        match self {
            Discovery::StunMqtt { .. } => Announce::Broker,
            Discovery::VpsServer { .. } => Announce::BootstrapServer,
            Discovery::VpsClient { .. } => Announce::BootstrapClient,
        }
    }

    /// The local port that a slot takes at the start: with a server, ports are taken anew for
    /// every registration, so any will do.
    pub fn first_port(&self, options: &MultiLinkOptions, slot: u8) -> (port: u16)
        ensures
            port == if !(self is StunMqtt) || options.local_port_base == 0 {
                0
            } else if options.local_port_base + slot > u16::MAX {
                u16::MAX as int
            } else {
                options.local_port_base + slot
            },
    {
        match self {
            Discovery::StunMqtt { .. } => slot_port(options.local_port_base, slot),
            _ => 0,
        }
    }
}

/// Slot 0 is announced outside the holes, by the way in which the peer is found; every other slot
/// through the holes.
pub proof fn law_only_slot_0_is_announced_outside(
    discovery: &Discovery,
    slot: u8,
    announce: Announce,
)
    requires
        call_ensures(Discovery::announce, (discovery, slot), announce),
    ensures
        announce is Holes <==> slot != 0,
        slot == 0 ==> {
            &&& discovery is StunMqtt <==> announce is Broker
            &&& discovery is VpsServer <==> announce is BootstrapServer
            &&& discovery is VpsClient <==> announce is BootstrapClient
        },
{
}

/// Announcements are repeated every 30 seconds at the broker, every 3 through the holes and every
/// second at the bootstrap port; a server only answers.
pub proof fn law_announcements_are_repeated(announce: Announce, interval: Option<u64>)
    requires
        call_ensures(Announce::interval, (announce,), interval),
    ensures
        announce is Broker ==> interval == Some(30_000_000_000u64),
        announce is Holes ==> interval == Some(3_000_000_000u64),
        announce is BootstrapClient ==> interval == Some(1_000_000_000u64),
        announce is BootstrapServer <==> interval is None,
{
}

/// How slots find their addresses is how the peer is found; a server hands its address and its
/// ports on.
pub proof fn law_slots_follow_the_discovery(discovery: &Discovery, mode: SlotMode)
    requires
        call_ensures(Discovery::mode, (discovery,), mode),
    ensures
        discovery is StunMqtt <==> mode is Stun,
        discovery is VpsClient <==> mode is VpsClient,
        *discovery matches Discovery::VpsServer { public_ip, bootstrap_port, ports } ==> mode == (
        SlotMode::VpsServer { public_ip, bootstrap_port, ports }),
{
}

/// Only the client of a server with a public address knocks at the very port alone; everyone else
/// knocks at 1000 more on either side. A knock comes every 50 milliseconds, and a hole is lost
/// after 15 seconds of silence.
pub proof fn law_knocks_have_a_margin(discovery: &Discovery, config: PunchConfig)
    requires
        call_ensures(Discovery::punch, (discovery,), config),
    ensures
        discovery is VpsClient ==> config.margin == 0,
        !(discovery is VpsClient) ==> config.margin == 1000,
        config.punch_interval == 50_000_000,
        config.keepalive_timeout == 15_000_000_000,
{
}

/// With a base the slots take consecutive ports, each its own; without one, and at a server or its
/// client, any.
pub proof fn law_slots_take_ports_of_their_own(
    discovery: &Discovery,
    options: &MultiLinkOptions,
    slot: u8,
    port: u16,
)
    requires
        call_ensures(Discovery::first_port, (discovery, options, slot), port),
    ensures
        !(discovery is StunMqtt) || options.local_port_base == 0 ==> port == 0,
        discovery is StunMqtt && options.local_port_base > 0 && options.local_port_base + slot
            <= 65535 ==> port == options.local_port_base + slot,
{
}

} // verus!
